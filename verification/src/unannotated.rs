//! Only annotations create owners: a text without `lt!(` has no owner, and
//! without owners nothing is reported.
use vstd::prelude::*;
use crate::text::{
    lemma_find_char_from, lemma_find_from, lemma_trim_end_prefix, lemma_trim_start_suffix,
    seq_find, seq_find_char, seq_lines, seq_occurs_at, seq_split, seq_starts_with, seq_trim,
    seq_trim_end, seq_trim_start, strip_cr,
};
use crate::syntax::{
    ident_end_from, lemma_ident_end_from, lt_let_from, spec_extract_lt_expr_label,
    spec_find_non_relational_eq, spec_parse_destructure, spec_parse_drop, spec_parse_for,
    spec_parse_let, spec_parse_lt_assign, spec_parse_lt_let, spec_strip_comment,
};
use crate::scanner::{
    args_moved_errors, declare_all, drop_errors, exit_errors, first_owner_named, initial_scan,
    spec_analyze_segment, spec_declare, spec_exit_scope, without_depth, without_var_at, ScanV,
};
use crate::joining::{join_state, spec_join_lt_lines};
use crate::analyzer::{
    analyze_pieces, brace, flush_segment, process_line, process_lines, scan_walk,
    spec_check_source, spec_scannable,
};

verus! {

/// `p` occurs somewhere in `s`.
pub open spec fn seq_contains_seq(s: Seq<char>, p: Seq<char>) -> bool {
    exists|i: int| seq_occurs_at(s, p, i)
}

pub open spec fn annotation() -> Seq<char> {
    "lt!("@
}

proof fn lemma_annotation()
    ensures
        annotation().len() == 4,
        !annotation().contains('\n'),
{
    reveal_strlit("lt!(");
    assert forall|i: int| 0 <= i < 4 implies annotation()[i] != '\n' by {}
}

pub proof fn lemma_sub_free(s: Seq<char>, p: Seq<char>, a: int, b: int)
    requires
        0 <= a <= b <= s.len(),
        !seq_contains_seq(s, p),
    ensures
        !seq_contains_seq(s.subrange(a, b), p),
{
    let t = s.subrange(a, b);
    if seq_contains_seq(t, p) {
        let i = choose|i: int| seq_occurs_at(t, p, i);
        assert(t.subrange(i, i + p.len()) =~= s.subrange(a + i, a + i + p.len()));
        assert(seq_occurs_at(s, p, a + i));
    }
}

pub proof fn lemma_trim_free(s: Seq<char>, p: Seq<char>)
    requires
        !seq_contains_seq(s, p),
    ensures
        !seq_contains_seq(seq_trim_start(s), p),
        !seq_contains_seq(seq_trim_end(s), p),
        !seq_contains_seq(seq_trim(s), p),
{
    lemma_trim_start_suffix(s);
    lemma_trim_end_prefix(s);
    let ts = seq_trim_start(s);
    lemma_sub_free(s, p, s.len() - ts.len(), s.len() as int);
    assert(ts =~= s.subrange(s.len() - ts.len(), s.len() as int));
    lemma_sub_free(s, p, 0, seq_trim_end(s).len() as int);
    assert(seq_trim_end(s) =~= s.subrange(0, seq_trim_end(s).len() as int));
    lemma_trim_end_prefix(ts);
    lemma_sub_free(ts, p, 0, seq_trim_end(ts).len() as int);
    assert(seq_trim_end(ts) =~= ts.subrange(0, seq_trim_end(ts).len() as int));
}

pub proof fn lemma_skip_free(s: Seq<char>, p: Seq<char>, k: int)
    requires
        0 <= k <= s.len(),
        !seq_contains_seq(s, p),
    ensures
        !seq_contains_seq(s.skip(k), p),
        !seq_contains_seq(s.take(k), p),
{
    lemma_sub_free(s, p, k, s.len() as int);
    assert(s.skip(k) =~= s.subrange(k, s.len() as int));
    lemma_sub_free(s, p, 0, k);
    assert(s.take(k) =~= s.subrange(0, k));
}

proof fn lemma_extract_needs_annotation(after: Seq<char>)
    requires
        !seq_contains_seq(after, annotation()),
    ensures
        spec_extract_lt_expr_label(after) is None,
{
    if seq_starts_with(after, "lt!("@) {
        lemma_annotation();
        assert(after.subrange(0, 4) =~= after.take(4));
        assert(seq_occurs_at(after, annotation(), 0));
    }
}

proof fn lemma_lt_let_from_free(word: Seq<char>)
    requires
        !seq_contains_seq(word, annotation()),
    ensures
        lt_let_from(word) is None,
    decreases word.len(),
{
    let end = ident_end_from(word, 0);
    lemma_ident_end_from(word, 0);
    let token = word.take(end);
    if 0 < end <= word.len() && (token == "mut"@ || token == "ref"@) {
        lemma_trim_start_suffix(word.skip(end));
        lemma_skip_free(word, annotation(), end);
        lemma_trim_free(word.skip(end), annotation());
        lemma_lt_let_from_free(seq_trim_start(word.skip(end)));
    } else if !(token.len() == 0 || !crate::syntax::spec_is_ident(token)) {
        let tail = word.skip(end);
        match seq_find_char(tail, '=') {
            None => {},
            Some(eq) => {
                lemma_find_char_from(tail, '=', 0);
                lemma_skip_free(word, annotation(), end + eq + 1);
                lemma_trim_free(word.skip(end + eq + 1), annotation());
                lemma_extract_needs_annotation(seq_trim(word.skip(end + eq + 1)));
            },
        }
    }
}

/// Without `lt!(` a statement neither declares an annotated binding nor
/// annotates an assignment.
proof fn lemma_parses_need_annotation(code: Seq<char>)
    requires
        !seq_contains_seq(code, annotation()),
    ensures
        spec_parse_lt_let(code) is None,
        spec_parse_lt_assign(code) is None,
        crate::legacy::spec_parse_lt_let(code) is None,
{
    let c = seq_trim(code);
    lemma_trim_free(code, annotation());
    crate::syntax::lemma_keyword_len();
    if seq_starts_with(c, "let "@) {
        lemma_skip_free(c, annotation(), 4);
        lemma_trim_free(c.skip(4), annotation());
        lemma_lt_let_from_free(seq_trim_start(c.skip(4)));
        let rest = c.skip(4);
        match seq_find_char(rest, '=') {
            None => {},
            Some(eq) => {
                lemma_find_char_from(rest, '=', 0);
                lemma_skip_free(rest, annotation(), eq + 1);
                lemma_trim_free(rest.skip(eq + 1), annotation());
                lemma_extract_needs_annotation(seq_trim(rest.skip(eq + 1)));
            },
        }
    } else {
        match spec_find_non_relational_eq(c) {
            None => {},
            Some(eq) => {
                crate::syntax::lemma_eq_from(c, 0, false);
                lemma_skip_free(c, annotation(), eq + 1);
                lemma_trim_free(c.skip(eq + 1), annotation());
                lemma_extract_needs_annotation(seq_trim(c.skip(eq + 1)));
            },
        }
    }
}

/// No owners and nothing reported.
pub open spec fn quiet(st: ScanV) -> bool {
    st.owners.len() == 0 && st.errors.len() == 0
}

proof fn lemma_declare_all_quiet(st: ScanV, vars: Seq<Seq<char>>)
    requires
        quiet(st),
    ensures
        quiet(declare_all(st, vars)),
    decreases vars.len(),
{
    if vars.len() > 0 {
        lemma_declare_all_quiet(st, vars.drop_last());
    }
}

proof fn lemma_args_no_owner(bs: Seq<crate::scanner::DeclV>, args: Seq<Seq<char>>, line: nat)
    ensures
        args_moved_errors(seq![], bs, args, line).len() == 0,
    decreases args.len(),
{
    if args.len() > 0 {
        lemma_args_no_owner(bs, args.drop_last(), line);
    }
}

proof fn lemma_analyze_quiet(st: ScanV, code: Seq<char>, line: nat)
    requires
        quiet(st),
        !seq_contains_seq(code, annotation()),
    ensures
        quiet(spec_analyze_segment(st, code, line)),
        quiet(crate::legacy::spec_analyze_segment(st, code, line)),
{
    lemma_parses_need_annotation(code);
    lemma_declare_all_quiet(st, spec_parse_destructure(code)->0);
    assert(st.owners =~= Seq::<crate::scanner::DeclV>::empty());
    assert(drop_errors(st.owners, spec_parse_drop(code)->0, st.borrows, line).len() == 0);
    let c = seq_trim(code);
    match seq_find_char(c, '(') {
        None => {},
        Some(lp) => {
            match crate::syntax::spec_extract_paren_body(c.skip(lp)) {
                None => {},
                Some(args) => {
                    lemma_args_no_owner(
                        st.borrows,
                        crate::syntax::spec_split_top_level_commas(args),
                        line,
                    );
                },
            }
        },
    }
}

pub proof fn lemma_split_free(s: Seq<char>, c: char, p: Seq<char>)
    requires
        !seq_contains_seq(s, p),
    ensures
        forall|i: int| 0 <= i < seq_split(s, c).len() ==> !seq_contains_seq(#[trigger] seq_split(s, c)[i], p),
    decreases s.len(),
{
    match seq_find_char(s, c) {
        None => {},
        Some(k) => {
            lemma_find_char_from(s, c, 0);
            if 0 <= k < s.len() {
                lemma_skip_free(s, p, k);
                lemma_skip_free(s, p, k + 1);
                lemma_split_free(s.skip(k + 1), c, p);
                let rest = seq_split(s.skip(k + 1), c);
                assert forall|i: int| 0 <= i < seq_split(s, c).len() implies !seq_contains_seq(
                    #[trigger] seq_split(s, c)[i],
                    p,
                ) by {
                    if i > 0 {
                        assert(seq_split(s, c)[i] == rest[i - 1]);
                    }
                }
            }
        },
    }
}

proof fn lemma_pieces_quiet(st: ScanV, pieces: Seq<Seq<char>>, line: nat)
    requires
        quiet(st),
        forall|i: int| 0 <= i < pieces.len() ==> !seq_contains_seq(#[trigger] pieces[i], annotation()),
    ensures
        quiet(analyze_pieces(st, pieces, line)),
    decreases pieces.len(),
{
    if pieces.len() > 0 {
        lemma_pieces_quiet(st, pieces.drop_last(), line);
        let last = pieces[pieces.len() - 1];
        lemma_trim_free(last, annotation());
        lemma_analyze_quiet(analyze_pieces(st, pieces.drop_last(), line), seq_trim(last), line);
    }
}

pub proof fn lemma_strip_comment_free(s: Seq<char>, p: Seq<char>)
    requires
        !seq_contains_seq(s, p),
    ensures
        !seq_contains_seq(spec_strip_comment(s), p),
{
    match seq_find(s, "//"@) {
        None => {},
        Some(pos) => {
            lemma_find_from(s, "//"@, 0);
            lemma_skip_free(s, p, pos);
            lemma_trim_free(s.take(pos), p);
        },
    }
}

proof fn lemma_flush_quiet(st: ScanV, seg: Seq<char>, line: nat)
    requires
        quiet(st),
        !seq_contains_seq(seg, annotation()),
    ensures
        quiet(flush_segment(st, seg, line)),
        quiet(crate::legacy::flush_segment(st, seg, line)),
{
    lemma_trim_free(seg, annotation());
    lemma_strip_comment_free(seq_trim(seg), annotation());
    let s = spec_strip_comment(seq_trim(seg));
    lemma_split_free(s, ';', annotation());
    lemma_pieces_quiet(st, seq_split(s, ';'), line);
    lemma_analyze_quiet(st, seq_trim(seg), line);
}

proof fn lemma_brace_quiet(st: ScanV, ch: char, line: nat)
    requires
        quiet(st),
    ensures
        quiet(brace(st, ch, line)),
{
    assert(st.owners =~= Seq::<crate::scanner::DeclV>::empty());
    assert(exit_errors(st.owners, st.borrows, st.depth, line).len() == 0);
    assert(without_depth(st.owners, st.depth).len() == 0);
}

proof fn lemma_walk_quiet(st: ScanV, s: Seq<char>, line: nat, j: int, seg_start: int, in_str: bool)
    requires
        quiet(st),
        !seq_contains_seq(s, annotation()),
        0 <= seg_start <= j <= s.len(),
    ensures
        quiet(scan_walk(st, s, line, j, seg_start, in_str)),
    decreases s.len() - j,
{
    if j >= s.len() {
        lemma_sub_free(s, annotation(), seg_start, s.len() as int);
        lemma_flush_quiet(st, s.subrange(seg_start, s.len() as int), line);
    } else {
        let ch = s[j];
        if ch == '"' {
            lemma_walk_quiet(st, s, line, j + 1, seg_start, !in_str);
        } else if in_str {
            lemma_walk_quiet(st, s, line, j + 1, seg_start, in_str);
        } else if ch == '}' || ch == '{' {
            lemma_sub_free(s, annotation(), seg_start, j);
            lemma_flush_quiet(st, s.subrange(seg_start, j), line);
            let st1 = flush_segment(st, s.subrange(seg_start, j), line);
            lemma_brace_quiet(st1, ch, line);
            lemma_walk_quiet(brace(st1, ch, line), s, line, j + 1, j + 1, in_str);
        } else {
            lemma_walk_quiet(st, s, line, j + 1, seg_start, in_str);
        }
    }
}

proof fn lemma_legacy_walk_quiet(st: ScanV, s: Seq<char>, line: nat, j: int, seg_start: int)
    requires
        quiet(st),
        !seq_contains_seq(s, annotation()),
        0 <= seg_start <= j <= s.len(),
    ensures
        quiet(crate::legacy::scan_walk(st, s, line, j, seg_start)),
    decreases s.len() - j,
{
    if j >= s.len() {
        lemma_sub_free(s, annotation(), seg_start, s.len() as int);
        lemma_flush_quiet(st, s.subrange(seg_start, s.len() as int), line);
    } else {
        let ch = s[j];
        if ch == '}' || ch == '{' {
            lemma_sub_free(s, annotation(), seg_start, j);
            lemma_flush_quiet(st, s.subrange(seg_start, j), line);
            let st1 = crate::legacy::flush_segment(st, s.subrange(seg_start, j), line);
            lemma_brace_quiet(st1, ch, line);
            lemma_legacy_walk_quiet(brace(st1, ch, line), s, line, j + 1, j + 1);
        } else {
            lemma_legacy_walk_quiet(st, s, line, j + 1, seg_start);
        }
    }
}

pub proof fn lemma_lines_free(s: Seq<char>, p: Seq<char>)
    requires
        !seq_contains_seq(s, p),
    ensures
        forall|i: int| 0 <= i < seq_lines(s).len() ==> !seq_contains_seq(#[trigger] seq_lines(s)[i], p),
    decreases s.len(),
{
    if s.len() > 0 {
        match seq_find_char(s, '\n') {
            None => {},
            Some(k) => {
                lemma_find_char_from(s, '\n', 0);
                lemma_skip_free(s, p, k);
                lemma_skip_free(s, p, k + 1);
                let t = s.take(k);
                if t.len() > 0 && t.last() == '\r' {
                    lemma_skip_free(t, p, t.len() - 1);
                    assert(t.drop_last() =~= t.take(t.len() - 1));
                }
                lemma_lines_free(s.skip(k + 1), p);
                let rest = seq_lines(s.skip(k + 1));
                assert forall|i: int| 0 <= i < seq_lines(s).len() implies !seq_contains_seq(
                    #[trigger] seq_lines(s)[i],
                    p,
                ) by {
                    if i > 0 {
                        assert(seq_lines(s)[i] == rest[i - 1]);
                    } else {
                        assert(seq_lines(s)[0] == strip_cr(t));
                    }
                }
            },
        }
    }
}

pub proof fn lemma_join_free(a: Seq<char>, b: Seq<char>, p: Seq<char>)
    requires
        !seq_contains_seq(a, p),
        !seq_contains_seq(b, p),
        !p.contains('\n'),
    ensures
        !seq_contains_seq(a + seq!['\n'] + b, p),
{
    let t = a + seq!['\n'] + b;
    if seq_contains_seq(t, p) {
        let i = choose|i: int| seq_occurs_at(t, p, i);
        if i + p.len() <= a.len() {
            assert(t.subrange(i, i + p.len()) =~= a.subrange(i, i + p.len()));
            assert(seq_occurs_at(a, p, i));
        } else if i > a.len() {
            assert(t.subrange(i, i + p.len()) =~= b.subrange(i - a.len() - 1, i - a.len() - 1 + p.len()));
            assert(seq_occurs_at(b, p, i - a.len() - 1));
        } else {
            assert(t[a.len() as int] == '\n');
            assert(t.subrange(i, i + p.len())[a.len() - i] == '\n');
            assert(p[a.len() - i] == '\n');
        }
    }
}

pub proof fn lemma_join_state_free(ls: Seq<Seq<char>>, p: Seq<char>)
    requires
        join_state(ls) is Some,
        !p.contains('\n'),
        forall|i: int| 0 <= i < ls.len() ==> !seq_contains_seq(#[trigger] ls[i], p),
    ensures
        forall|i: int|
            0 <= i < (join_state(ls)->0).0.len() ==> !seq_contains_seq(
                (#[trigger] (join_state(ls)->0).0[i]).1,
                p,
            ),
        (join_state(ls)->0).1 matches Some(q) ==> !seq_contains_seq(q.1, p),
    decreases ls.len(),
{
    if ls.len() > 0 {
        assert forall|i: int| 0 <= i < ls.drop_last().len() implies !seq_contains_seq(
            #[trigger] ls.drop_last()[i],
            p,
        ) by {
            assert(ls.drop_last()[i] == ls[i]);
        }
        lemma_join_state_free(ls.drop_last(), p);
        let (res, pend) = join_state(ls.drop_last())->0;
        assert(!seq_contains_seq(ls[ls.len() - 1], p));
        match pend {
            Some(q) => {
                lemma_join_free(q.1, ls.last(), p);
            },
            None => {},
        }
    }
}

proof fn lemma_process_lines_quiet(st: ScanV, ls: Seq<(nat, Seq<char>)>)
    requires
        quiet(st),
        forall|i: int| 0 <= i < ls.len() ==> !seq_contains_seq((#[trigger] ls[i]).1, annotation()),
    ensures
        quiet(process_lines(st, ls)),
    decreases ls.len(),
{
    if ls.len() > 0 {
        assert forall|i: int| 0 <= i < ls.drop_last().len() implies !seq_contains_seq(
            (#[trigger] ls.drop_last()[i]).1,
            annotation(),
        ) by {
            assert(ls.drop_last()[i] == ls[i]);
        }
        lemma_process_lines_quiet(st, ls.drop_last());
        let last = ls[ls.len() - 1];
        lemma_trim_free(last.1, annotation());
        lemma_walk_quiet(process_lines(st, ls.drop_last()), seq_trim(last.1), last.0, 0, 0, false);
    }
}

/// A text without any `lt!(` annotation has no violations.
pub proof fn law_unannotated_source_is_clean(src: Seq<char>)
    requires
        spec_scannable(src),
        !seq_contains_seq(src, "lt!("@),
    ensures
        spec_check_source(src) == Seq::<(nat, Seq<char>)>::empty(),
{
    let ls = seq_lines(src);
    lemma_annotation();
    lemma_lines_free(src, annotation());
    lemma_join_state_free(ls, annotation());
    let (res, pend) = join_state(ls)->0;
    let joined = spec_join_lt_lines(src)->0;
    assert forall|i: int| 0 <= i < joined.len() implies !seq_contains_seq(
        (#[trigger] joined[i]).1,
        annotation(),
    ) by {
        match pend {
            Some(p) => {
                if i < res.len() {
                    assert(joined[i] == res[i]);
                }
            },
            None => {},
        }
    }
    lemma_process_lines_quiet(initial_scan(), joined);
}

proof fn lemma_legacy_process_quiet(st: ScanV, ls: Seq<Seq<char>>, i: int)
    requires
        quiet(st),
        0 <= i,
        forall|k: int| 0 <= k < ls.len() ==> !seq_contains_seq(#[trigger] ls[k], annotation()),
    ensures
        quiet(crate::legacy::process_from(st, ls, i)),
    decreases ls.len() - i,
{
    if i < ls.len() {
        let s = seq_trim(ls[i]);
        lemma_trim_free(ls[i], annotation());
        if s.len() == 0 || seq_starts_with(s, "//"@) {
            lemma_legacy_process_quiet(st, ls, i + 1);
        } else if !seq_starts_with(s, "#[cfg(test)]"@) {
            lemma_legacy_walk_quiet(st, s, (i + 1) as nat, 0, 0);
            lemma_legacy_process_quiet(crate::legacy::scan_walk(st, s, (i + 1) as nat, 0, 0), ls, i + 1);
        }
    }
}

/// The first-generation analysis reports nothing either on a text without
/// `lt!(`.
pub proof fn law_legacy_unannotated_source_is_clean(src: Seq<char>)
    requires
        !seq_contains_seq(src, "lt!("@),
    ensures
        crate::legacy::spec_check_source(src) == Seq::<(nat, Seq<char>)>::empty(),
{
    lemma_lines_free(src, annotation());
    lemma_legacy_process_quiet(initial_scan(), seq_lines(src), 0);
}

} // verus!
