//! Blank lines in front of a text move every violation down by as many
//! lines: the scan of the longer text follows the scan of the shorter one
//! step by step, with each recorded line number larger by the same amount.
use vstd::prelude::*;
use crate::text::{lemma_lines_concat, seq_lines, seq_split, seq_trim};
use crate::syntax::{
    spec_extract_paren_body, spec_parse_destructure, spec_parse_drop, spec_parse_for,
    spec_parse_let, spec_parse_lt_assign, spec_parse_lt_let, spec_split_top_level_commas,
    spec_strip_comment,
};
use crate::joining::{join_state, spec_has_unclosed_lt, spec_join_lt_lines};
use crate::scanner::{
    args_moved_errors, declare_all, drop_errors, exit_errors, first_owner_named, initial_scan,
    moved_errors, owner_drop_errors, owner_exit_errors, owner_used_errors, spec_analyze_segment,
    spec_declare, without_depth, without_var_at, DeclV, ScanV,
};
use crate::analyzer::{
    analyze_pieces, brace, errors_ok, error_ok, flush_segment, lemma_args_moved_errors_ok,
    lemma_drop_errors_ok, lemma_exit_errors_ok, lemma_lines_len, process_line, process_lines,
    scan_walk, spec_check_source, spec_scannable, total_len,
};
use crate::text::{lemma_find_char_from, seq_find_char, seq_starts_with, seq_trim_start};
use crate::syntax::{
    ident_end_from, lemma_eq_from, lemma_ident_end_from, lemma_last_comma_from,
    lemma_lt_close_from, lemma_keyword_len, lt_close_from, lt_let_from,
    spec_extract_lt_expr_label, spec_find_last_comma, spec_find_non_relational_eq, spec_is_ident,
};
use crate::joining::lemma_join_state_lines;
use crate::scanner::{
    lemma_first_owner_named_in, moved_message, outlives, scope_exit_message, drop_message,
};
use crate::report::{adjust_from, mark};
use crate::quotes::{lemma_drop_message, lemma_exit_message, lemma_moved_message, quote_free};
use crate::unannotated::{
    lemma_join_state_free, lemma_lines_free, lemma_skip_free, lemma_split_free,
    lemma_strip_comment_free, lemma_sub_free, lemma_trim_free,
};

verus! {

/// `k` newlines.
pub open spec fn newlines(k: nat) -> Seq<char> {
    Seq::new(k, |i: int| '\n')
}

pub open spec fn blank_lines(k: nat) -> Seq<Seq<char>> {
    Seq::new(k, |i: int| Seq::<char>::empty())
}

pub open spec fn blank_pairs(k: nat) -> Seq<(nat, Seq<char>)> {
    Seq::new(k, |i: int| ((i + 1) as nat, Seq::<char>::empty()))
}

pub open spec fn shift_pairs(ps: Seq<(nat, Seq<char>)>, k: nat) -> Seq<(nat, Seq<char>)> {
    ps.map_values(|p: (nat, Seq<char>)| ((p.0 + k) as nat, p.1))
}

pub open spec fn shift_decl(d: DeclV, k: nat) -> DeclV {
    DeclV { var: d.var, label: d.label, line: d.line + k, depth: d.depth }
}

pub open spec fn shift_decls(s: Seq<DeclV>, k: nat) -> Seq<DeclV> {
    s.map_values(|d: DeclV| shift_decl(d, k))
}

/// The same violations, each `k` lines further down.
pub open spec fn lines_shifted(e1: Seq<(nat, Seq<char>)>, e2: Seq<(nat, Seq<char>)>, k: nat) -> bool {
    &&& e1.len() == e2.len()
    &&& forall|i: int| 0 <= i < e1.len() ==> #[trigger] e2[i].0 == e1[i].0 + k
}

/// Two scan states alike but for line numbers, which are `k` larger in the
/// second.
pub open spec fn shifted(a: ScanV, b: ScanV, k: nat) -> bool {
    &&& b.depth == a.depth
    &&& b.vars == a.vars
    &&& b.owners == shift_decls(a.owners, k)
    &&& b.borrows == shift_decls(a.borrows, k)
    &&& lines_shifted(a.errors, b.errors, k)
}

proof fn lemma_shift_decls_last(s: Seq<DeclV>, k: nat)
    requires
        s.len() > 0,
    ensures
        shift_decls(s, k).drop_last() == shift_decls(s.drop_last(), k),
        shift_decls(s, k).last() == shift_decl(s.last(), k),
{
    assert(shift_decls(s, k).drop_last() =~= shift_decls(s.drop_last(), k));
}

proof fn lemma_shift_decls_push(s: Seq<DeclV>, d: DeclV, k: nat)
    ensures
        shift_decls(s.push(d), k) == shift_decls(s, k).push(shift_decl(d, k)),
{
    assert(shift_decls(s.push(d), k) =~= shift_decls(s, k).push(shift_decl(d, k)));
}

proof fn lemma_without_var_at(s: Seq<DeclV>, var: Seq<char>, d: nat, k: nat)
    ensures
        without_var_at(shift_decls(s, k), var, d) == shift_decls(without_var_at(s, var, d), k),
    decreases s.len(),
{
    if s.len() == 0 {
        assert(shift_decls(s, k) =~= Seq::<DeclV>::empty());
        assert(shift_decls(Seq::<DeclV>::empty(), k) =~= Seq::<DeclV>::empty());
    } else {
        lemma_shift_decls_last(s, k);
        lemma_without_var_at(s.drop_last(), var, d, k);
        let w = without_var_at(s.drop_last(), var, d);
        if !(s.last().var == var && s.last().depth == d) {
            lemma_shift_decls_push(w, s.last(), k);
            assert(w + seq![s.last()] =~= w.push(s.last()));
            assert(shift_decls(w, k) + seq![shift_decl(s.last(), k)] =~= shift_decls(w, k).push(
                shift_decl(s.last(), k),
            ));
        } else {
            assert(w + Seq::<DeclV>::empty() =~= w);
            assert(shift_decls(w, k) + Seq::<DeclV>::empty() =~= shift_decls(w, k));
        }
    }
}

proof fn lemma_without_depth(s: Seq<DeclV>, d: nat, k: nat)
    ensures
        without_depth(shift_decls(s, k), d) == shift_decls(without_depth(s, d), k),
    decreases s.len(),
{
    if s.len() == 0 {
        assert(shift_decls(s, k) =~= Seq::<DeclV>::empty());
        assert(shift_decls(Seq::<DeclV>::empty(), k) =~= Seq::<DeclV>::empty());
    } else {
        lemma_shift_decls_last(s, k);
        lemma_without_depth(s.drop_last(), d, k);
        let w = without_depth(s.drop_last(), d);
        if s.last().depth != d {
            lemma_shift_decls_push(w, s.last(), k);
            assert(w + seq![s.last()] =~= w.push(s.last()));
            assert(shift_decls(w, k) + seq![shift_decl(s.last(), k)] =~= shift_decls(w, k).push(
                shift_decl(s.last(), k),
            ));
        } else {
            assert(w + Seq::<DeclV>::empty() =~= w);
            assert(shift_decls(w, k) + Seq::<DeclV>::empty() =~= shift_decls(w, k));
        }
    }
}

proof fn lemma_owner_counts(o: DeclV, bs: Seq<DeclV>, var: Seq<char>, d: nat, line: nat, k: nat)
    ensures
        owner_exit_errors(shift_decl(o, k), shift_decls(bs, k), d, line + k).len()
            == owner_exit_errors(o, bs, d, line).len(),
        owner_drop_errors(shift_decl(o, k), var, shift_decls(bs, k), line + k).len()
            == owner_drop_errors(o, var, bs, line).len(),
        moved_errors(shift_decl(o, k), shift_decls(bs, k), line + k).len() == moved_errors(
            o,
            bs,
            line,
        ).len(),
    decreases bs.len(),
{
    if bs.len() > 0 {
        lemma_shift_decls_last(bs, k);
        lemma_owner_counts(o, bs.drop_last(), var, d, line, k);
    }
}

proof fn lemma_owners_counts(os: Seq<DeclV>, bs: Seq<DeclV>, var: Seq<char>, d: nat, line: nat, k: nat)
    ensures
        exit_errors(shift_decls(os, k), shift_decls(bs, k), d, line + k).len() == exit_errors(
            os,
            bs,
            d,
            line,
        ).len(),
        drop_errors(shift_decls(os, k), var, shift_decls(bs, k), line + k).len() == drop_errors(
            os,
            var,
            bs,
            line,
        ).len(),
    decreases os.len(),
{
    if os.len() > 0 {
        lemma_shift_decls_last(os, k);
        lemma_owners_counts(os.drop_last(), bs, var, d, line, k);
        lemma_owner_counts(os.last(), bs, var, d, line, k);
    }
}

proof fn lemma_first_owner_named(os: Seq<DeclV>, name: Seq<char>, k: nat)
    ensures
        first_owner_named(shift_decls(os, k), name) == match first_owner_named(os, name) {
            Some(o) => Some(shift_decl(o, k)),
            None => None,
        },
    decreases os.len(),
{
    if os.len() > 0 {
        assert(shift_decls(os, k)[0] == shift_decl(os[0], k));
        assert(shift_decls(os, k).drop_first() =~= shift_decls(os.drop_first(), k));
        lemma_first_owner_named(os.drop_first(), name, k);
    }
}

proof fn lemma_args_counts(os: Seq<DeclV>, bs: Seq<DeclV>, args: Seq<Seq<char>>, line: nat, k: nat)
    ensures
        args_moved_errors(shift_decls(os, k), shift_decls(bs, k), args, line + k).len()
            == args_moved_errors(os, bs, args, line).len(),
    decreases args.len(),
{
    if args.len() > 0 {
        lemma_args_counts(os, bs, args.drop_last(), line, k);
        let a = seq_trim(args.last());
        lemma_first_owner_named(os, a, k);
        match first_owner_named(os, a) {
            Some(o) => {
                lemma_owner_counts(o, bs, seq![], 0, line, k);
            },
            None => {},
        }
    }
}

/// Appending violations of line `line` to one and of line `line + k` to
/// the other, as many each, keeps them shifted.
proof fn lemma_append_shifted(
    a1: Seq<(nat, Seq<char>)>,
    a2: Seq<(nat, Seq<char>)>,
    b1: Seq<(nat, Seq<char>)>,
    b2: Seq<(nat, Seq<char>)>,
    line: nat,
    k: nat,
)
    requires
        lines_shifted(a1, a2, k),
        b1.len() == b2.len(),
        errors_ok(b1, line, line),
        errors_ok(b2, line + k, line + k),
    ensures
        lines_shifted(a1 + b1, a2 + b2, k),
{
    assert forall|i: int| 0 <= i < (a1 + b1).len() implies #[trigger] (a2 + b2)[i].0 == (a1
        + b1)[i].0 + k by {
        if i < a1.len() {
            assert((a1 + b1)[i] == a1[i] && (a2 + b2)[i] == a2[i]);
        } else {
            assert((a1 + b1)[i] == b1[i - a1.len()] && (a2 + b2)[i] == b2[i - a1.len()]);
            assert(error_ok(b1[i - a1.len()], line, line));
            assert(error_ok(b2[i - a1.len()], line + k, line + k));
        }
    }
}

proof fn lemma_declare(a: ScanV, b: ScanV, var: Seq<char>, k: nat)
    requires
        shifted(a, b, k),
    ensures
        shifted(spec_declare(a, var), spec_declare(b, var), k),
{
    lemma_without_var_at(a.owners, var, a.depth, k);
    lemma_without_var_at(a.borrows, var, a.depth, k);
}

proof fn lemma_declare_all(a: ScanV, b: ScanV, vars: Seq<Seq<char>>, k: nat)
    requires
        shifted(a, b, k),
    ensures
        shifted(declare_all(a, vars), declare_all(b, vars), k),
    decreases vars.len(),
{
    if vars.len() > 0 {
        lemma_declare_all(a, b, vars.drop_last(), k);
        lemma_declare(declare_all(a, vars.drop_last()), declare_all(b, vars.drop_last()), vars.last(), k);
    }
}

proof fn lemma_segment(a: ScanV, b: ScanV, code: Seq<char>, line: nat, k: nat)
    requires
        shifted(a, b, k),
    ensures
        shifted(spec_analyze_segment(a, code, line), spec_analyze_segment(b, code, line + k), k),
{
    match spec_parse_lt_let(code) {
        Some((var, expr, label)) => {
            lemma_declare(a, b, var, k);
            let a1 = spec_declare(a, var);
            let decl = DeclV { var, label, line, depth: a.depth };
            lemma_shift_decls_push(a1.borrows, decl, k);
            lemma_shift_decls_push(a1.owners, decl, k);
        },
        None => match spec_parse_destructure(code) {
            Some(vars) => {
                lemma_declare_all(a, b, vars, k);
            },
            None => match spec_parse_let(code) {
                Some(var) => {
                    lemma_declare(a, b, var, k);
                },
                None => match spec_parse_for(code) {
                    Some(var) => {
                        lemma_declare(a, b, var, k);
                    },
                    None => match spec_parse_lt_assign(code) {
                        Some((var, _expr, label)) => {
                            let decl_d = if a.vars.contains_key(var) {
                                a.vars[var]
                            } else {
                                a.depth
                            };
                            let eff_d = if decl_d < a.depth {
                                decl_d
                            } else {
                                a.depth
                            };
                            lemma_shift_decls_push(
                                a.borrows,
                                DeclV { var, label, line, depth: eff_d },
                                k,
                            );
                        },
                        None => match spec_parse_drop(code) {
                            Some(var) => {
                                lemma_owners_counts(a.owners, a.borrows, var, 0, line, k);
                                lemma_drop_errors_ok(a.owners, var, a.borrows, line);
                                lemma_drop_errors_ok(b.owners, var, b.borrows, line + k);
                                lemma_append_shifted(
                                    a.errors,
                                    b.errors,
                                    drop_errors(a.owners, var, a.borrows, line),
                                    drop_errors(b.owners, var, b.borrows, line + k),
                                    line,
                                    k,
                                );
                            },
                            None => {
                                let c = seq_trim(code);
                                assert(errors_ok(Seq::<(nat, Seq<char>)>::empty(), line, line));
                                assert(errors_ok(
                                    Seq::<(nat, Seq<char>)>::empty(),
                                    line + k,
                                    line + k,
                                ));
                                match crate::text::seq_find_char(c, '(') {
                                    None => {},
                                    Some(lp) => {
                                        match spec_extract_paren_body(c.skip(lp)) {
                                            None => {},
                                            Some(args) => {
                                                let parts = spec_split_top_level_commas(args);
                                                lemma_args_counts(a.owners, a.borrows, parts, line, k);
                                                lemma_args_moved_errors_ok(
                                                    a.owners,
                                                    a.borrows,
                                                    parts,
                                                    line,
                                                );
                                                lemma_args_moved_errors_ok(
                                                    b.owners,
                                                    b.borrows,
                                                    parts,
                                                    line + k,
                                                );
                                            },
                                        }
                                    },
                                }
                                assert(owner_used_errors(b, code, line + k).len() == owner_used_errors(
                                    a,
                                    code,
                                    line,
                                ).len());
                                lemma_append_shifted(
                                    a.errors,
                                    b.errors,
                                    owner_used_errors(a, code, line),
                                    owner_used_errors(b, code, line + k),
                                    line,
                                    k,
                                );
                            },
                        },
                    },
                },
            },
        },
    }
}

proof fn lemma_pieces(a: ScanV, b: ScanV, pieces: Seq<Seq<char>>, line: nat, k: nat)
    requires
        shifted(a, b, k),
    ensures
        shifted(analyze_pieces(a, pieces, line), analyze_pieces(b, pieces, line + k), k),
    decreases pieces.len(),
{
    if pieces.len() > 0 {
        lemma_pieces(a, b, pieces.drop_last(), line, k);
        lemma_segment(
            analyze_pieces(a, pieces.drop_last(), line),
            analyze_pieces(b, pieces.drop_last(), line + k),
            seq_trim(pieces.last()),
            line,
            k,
        );
    }
}

proof fn lemma_flush(a: ScanV, b: ScanV, seg: Seq<char>, line: nat, k: nat)
    requires
        shifted(a, b, k),
    ensures
        shifted(flush_segment(a, seg, line), flush_segment(b, seg, line + k), k),
{
    lemma_pieces(a, b, seq_split(spec_strip_comment(seq_trim(seg)), ';'), line, k);
}

proof fn lemma_brace(a: ScanV, b: ScanV, ch: char, line: nat, k: nat)
    requires
        shifted(a, b, k),
    ensures
        shifted(brace(a, ch, line), brace(b, ch, line + k), k),
{
    if ch == '}' {
        lemma_without_depth(a.owners, a.depth, k);
        lemma_without_depth(a.borrows, a.depth, k);
        lemma_owners_counts(a.owners, a.borrows, seq![], a.depth, line, k);
        lemma_exit_errors_ok(a.owners, a.borrows, a.depth, line);
        lemma_exit_errors_ok(b.owners, b.borrows, b.depth, line + k);
        lemma_append_shifted(
            a.errors,
            b.errors,
            exit_errors(a.owners, a.borrows, a.depth, line),
            exit_errors(b.owners, b.borrows, b.depth, line + k),
            line,
            k,
        );
    }
}

proof fn lemma_walk(a: ScanV, b: ScanV, s: Seq<char>, line: nat, j: int, seg_start: int, in_str: bool, k: nat)
    requires
        shifted(a, b, k),
    ensures
        shifted(
            scan_walk(a, s, line, j, seg_start, in_str),
            scan_walk(b, s, line + k, j, seg_start, in_str),
            k,
        ),
    decreases s.len() - j,
{
    if j < 0 || j >= s.len() {
        lemma_flush(a, b, s.subrange(seg_start, s.len() as int), line, k);
    } else {
        let ch = s[j];
        if ch == '"' {
            lemma_walk(a, b, s, line, j + 1, seg_start, !in_str, k);
        } else if in_str {
            lemma_walk(a, b, s, line, j + 1, seg_start, in_str, k);
        } else if ch == '}' || ch == '{' {
            let a1 = flush_segment(a, s.subrange(seg_start, j), line);
            let b1 = flush_segment(b, s.subrange(seg_start, j), line + k);
            lemma_flush(a, b, s.subrange(seg_start, j), line, k);
            lemma_brace(a1, b1, ch, line, k);
            lemma_walk(brace(a1, ch, line), brace(b1, ch, line + k), s, line, j + 1, j + 1, in_str, k);
        } else {
            lemma_walk(a, b, s, line, j + 1, seg_start, in_str, k);
        }
    }
}

proof fn lemma_process(a: ScanV, b: ScanV, ls: Seq<(nat, Seq<char>)>, k: nat)
    requires
        shifted(a, b, k),
    ensures
        shifted(process_lines(a, ls), process_lines(b, shift_pairs(ls, k)), k),
    decreases ls.len(),
{
    if ls.len() > 0 {
        let sh = shift_pairs(ls, k);
        assert(sh.drop_last() =~= shift_pairs(ls.drop_last(), k));
        assert(sh.last() == ((ls.last().0 + k) as nat, ls.last().1));
        lemma_process(a, b, ls.drop_last(), k);
        let a1 = process_lines(a, ls.drop_last());
        let b1 = process_lines(b, sh.drop_last());
        lemma_walk(a1, b1, seq_trim(ls.last().1), ls.last().0, 0, 0, false, k);
    }
}

proof fn lemma_process_blank(st: ScanV, k: nat)
    ensures
        process_lines(st, blank_pairs(k)) == st,
    decreases k,
{
    if k > 0 {
        assert(blank_pairs(k).drop_last() =~= blank_pairs((k - 1) as nat));
        lemma_process_blank(st, (k - 1) as nat);
        let e = Seq::<char>::empty();
        assert(seq_trim(e) =~= e);
    }
}

proof fn lemma_process_concat(st: ScanV, x: Seq<(nat, Seq<char>)>, y: Seq<(nat, Seq<char>)>)
    ensures
        process_lines(st, x + y) == process_lines(process_lines(st, x), y),
    decreases y.len(),
{
    if y.len() == 0 {
        assert(x + y =~= x);
    } else {
        assert((x + y).drop_last() =~= x + y.drop_last());
        assert((x + y).last() == y.last());
        lemma_process_concat(st, x, y.drop_last());
    }
}

proof fn lemma_lines_newlines(k: nat)
    ensures
        seq_lines(newlines(k)) == blank_lines(k),
    decreases k,
{
    if k > 0 {
        let s = newlines(k);
        crate::text::lemma_find_char_from(s, '\n', 0);
        assert(s[0] == '\n');
        assert(s.take(0) =~= Seq::<char>::empty());
        assert(s.skip(1) =~= newlines((k - 1) as nat));
        lemma_lines_newlines((k - 1) as nat);
        assert(blank_lines(k) =~= seq![Seq::<char>::empty()] + blank_lines((k - 1) as nat));
    } else {
        assert(blank_lines(0) =~= Seq::<Seq<char>>::empty());
    }
}

proof fn lemma_join_blank(k: nat)
    ensures
        join_state(blank_lines(k)) == Some((blank_pairs(k), None::<(nat, Seq<char>)>)),
    decreases k,
{
    if k > 0 {
        assert(blank_lines(k).drop_last() =~= blank_lines((k - 1) as nat));
        lemma_join_blank((k - 1) as nat);
        assert(vstd::utf8::encode_utf8(Seq::<char>::empty()) =~= Seq::<u8>::empty());
        assert(spec_has_unclosed_lt(Seq::<char>::empty()) == Some(false));
        assert(blank_pairs(k) =~= blank_pairs((k - 1) as nat).push((k, Seq::<char>::empty())));
    } else {
        assert(blank_lines(0) =~= Seq::<Seq<char>>::empty());
        assert(blank_pairs(0) =~= Seq::<(nat, Seq<char>)>::empty());
    }
}

pub open spec fn shift_pending(p: Option<(nat, Seq<char>)>, k: nat) -> Option<(nat, Seq<char>)> {
    match p {
        Some(q) => Some(((q.0 + k) as nat, q.1)),
        None => None,
    }
}

proof fn lemma_join_shift(k: nat, ls: Seq<Seq<char>>)
    ensures
        join_state(ls) is None ==> join_state(blank_lines(k) + ls) is None,
        join_state(ls) matches Some((res, pend)) ==> join_state(blank_lines(k) + ls) == Some(
            (blank_pairs(k) + shift_pairs(res, k), shift_pending(pend, k)),
        ),
    decreases ls.len(),
{
    let all = blank_lines(k) + ls;
    if ls.len() == 0 {
        lemma_join_blank(k);
        assert(all =~= blank_lines(k));
        assert(blank_pairs(k) + shift_pairs(Seq::<(nat, Seq<char>)>::empty(), k) =~= blank_pairs(k));
    } else {
        lemma_join_shift(k, ls.drop_last());
        assert(all.drop_last() =~= blank_lines(k) + ls.drop_last());
        assert(all.last() == ls.last());
        assert(all.len() == k + ls.len());
        match join_state(ls.drop_last()) {
            None => {},
            Some((res0, pend0)) => {
                let s = ls.last();
                let base = blank_pairs(k) + shift_pairs(res0, k);
                match pend0 {
                    Some((first, acc0)) => {
                        let acc = acc0 + seq!['\n'] + s;
                        assert(base.push(((first + k) as nat, acc)) =~= blank_pairs(k) + shift_pairs(
                            res0.push((first, acc)),
                            k,
                        ));
                    },
                    None => {
                        let n = ls.len() as nat;
                        assert(base.push(((n + k) as nat, s)) =~= blank_pairs(k) + shift_pairs(
                            res0.push((n, s)),
                            k,
                        ));
                    },
                }
            },
        }
    }
}

// ------------------------------------------------------------------
// Messages
// ------------------------------------------------------------------

/// Each message of the second list, its quoted lines shifted back by `k`,
/// is the message of the first.
pub open spec fn msgs_shifted(e1: Seq<(nat, Seq<char>)>, e2: Seq<(nat, Seq<char>)>, k: nat) -> bool {
    &&& e1.len() == e2.len()
    &&& forall|i: int| #![trigger e2[i]] 0 <= i < e1.len() ==> adjust_from(e2[i].1, k) == Some(e1[i].1)
}

pub open spec fn owner_sound(o: DeclV, k: nat) -> bool {
    &&& quote_free(o.label)
    &&& spec_is_ident(o.var)
    &&& o.line + k <= usize::MAX
}

pub open spec fn borrow_sound(b: DeclV, k: nat) -> bool {
    &&& spec_is_ident(b.var)
    &&& b.line + k <= usize::MAX
}

pub open spec fn owners_sound(s: Seq<DeclV>, k: nat) -> bool {
    forall|i: int| 0 <= i < s.len() ==> owner_sound(#[trigger] s[i], k)
}

pub open spec fn borrows_sound(s: Seq<DeclV>, k: nat) -> bool {
    forall|i: int| 0 <= i < s.len() ==> borrow_sound(#[trigger] s[i], k)
}

/// The scans alike but for lines, the second's messages shifting back to
/// the first's, and every binding of the first fit to be quoted.
pub open spec fn quoted_alike(a: ScanV, b: ScanV, k: nat) -> bool {
    &&& shifted(a, b, k)
    &&& msgs_shifted(a.errors, b.errors, k)
    &&& owners_sound(a.owners, k)
    &&& borrows_sound(a.borrows, k)
}

proof fn lemma_msgs_concat(
    a1: Seq<(nat, Seq<char>)>,
    a2: Seq<(nat, Seq<char>)>,
    b1: Seq<(nat, Seq<char>)>,
    b2: Seq<(nat, Seq<char>)>,
    k: nat,
)
    requires
        msgs_shifted(a1, a2, k),
        msgs_shifted(b1, b2, k),
    ensures
        msgs_shifted(a1 + b1, a2 + b2, k),
{
    assert forall|i: int| #![trigger (a2 + b2)[i]] 0 <= i < (a1 + b1).len() implies adjust_from(
        (a2 + b2)[i].1,
        k,
    ) == Some((a1 + b1)[i].1) by {
        if i < a1.len() {
            assert((a1 + b1)[i] == a1[i] && (a2 + b2)[i] == a2[i]);
        } else {
            assert((a1 + b1)[i] == b1[i - a1.len()] && (a2 + b2)[i] == b2[i - a1.len()]);
        }
    }
}

proof fn lemma_msgs_empty(k: nat)
    ensures
        msgs_shifted(Seq::<(nat, Seq<char>)>::empty(), Seq::<(nat, Seq<char>)>::empty(), k),
{
}

proof fn lemma_msgs_one(l1: nat, m1: Seq<char>, l2: nat, m2: Seq<char>, k: nat)
    requires
        adjust_from(m2, k) == Some(m1),
    ensures
        msgs_shifted(seq![(l1, m1)], seq![(l2, m2)], k),
{
    assert forall|i: int| #![trigger seq![(l2, m2)][i]] 0 <= i < 1 implies adjust_from(
        seq![(l2, m2)][i].1,
        k,
    ) == Some(seq![(l1, m1)][i].1) by {}
}

proof fn lemma_owner_exit_msgs(o: DeclV, bs: Seq<DeclV>, d: nat, line: nat, k: nat)
    requires
        owner_sound(o, k),
        borrows_sound(bs, k),
    ensures
        msgs_shifted(
            owner_exit_errors(o, bs, d, line),
            owner_exit_errors(shift_decl(o, k), shift_decls(bs, k), d, line + k),
            k,
        ),
    decreases bs.len(),
{
    if bs.len() == 0 {
        assert(shift_decls(bs, k) =~= Seq::<DeclV>::empty());
        lemma_msgs_empty(k);
    } else {
        lemma_shift_decls_last(bs, k);
        assert forall|i: int| 0 <= i < bs.drop_last().len() implies borrow_sound(
            #[trigger] bs.drop_last()[i],
            k,
        ) by {
            assert(bs.drop_last()[i] == bs[i]);
        }
        lemma_owner_exit_msgs(o, bs.drop_last(), d, line, k);
        let b = bs.last();
        assert(borrow_sound(bs[bs.len() - 1], k));
        if outlives(o, b, d) {
            lemma_exit_message(o, b, k);
            lemma_msgs_one(
                line,
                scope_exit_message(o, b),
                line + k,
                scope_exit_message(shift_decl(o, k), shift_decl(b, k)),
                k,
            );
            lemma_msgs_concat(
                owner_exit_errors(o, bs.drop_last(), d, line),
                owner_exit_errors(shift_decl(o, k), shift_decls(bs.drop_last(), k), d, line + k),
                seq![(line, scope_exit_message(o, b))],
                seq![((line + k) as nat, scope_exit_message(shift_decl(o, k), shift_decl(b, k)))],
                k,
            );
        } else {
            lemma_msgs_empty(k);
            lemma_msgs_concat(
                owner_exit_errors(o, bs.drop_last(), d, line),
                owner_exit_errors(shift_decl(o, k), shift_decls(bs.drop_last(), k), d, line + k),
                Seq::<(nat, Seq<char>)>::empty(),
                Seq::<(nat, Seq<char>)>::empty(),
                k,
            );
        }
    }
}

proof fn lemma_owner_drop_msgs(o: DeclV, var: Seq<char>, bs: Seq<DeclV>, line: nat, k: nat)
    requires
        owner_sound(o, k),
        spec_is_ident(var),
        borrows_sound(bs, k),
    ensures
        msgs_shifted(
            owner_drop_errors(o, var, bs, line),
            owner_drop_errors(shift_decl(o, k), var, shift_decls(bs, k), line + k),
            k,
        ),
    decreases bs.len(),
{
    if bs.len() == 0 {
        assert(shift_decls(bs, k) =~= Seq::<DeclV>::empty());
        lemma_msgs_empty(k);
    } else {
        lemma_shift_decls_last(bs, k);
        assert forall|i: int| 0 <= i < bs.drop_last().len() implies borrow_sound(
            #[trigger] bs.drop_last()[i],
            k,
        ) by {
            assert(bs.drop_last()[i] == bs[i]);
        }
        lemma_owner_drop_msgs(o, var, bs.drop_last(), line, k);
        let b = bs.last();
        assert(borrow_sound(bs[bs.len() - 1], k));
        let e1 = owner_drop_errors(o, var, bs.drop_last(), line);
        let e2 = owner_drop_errors(shift_decl(o, k), var, shift_decls(bs.drop_last(), k), line + k);
        if b.label == o.label && b.line < line {
            lemma_drop_message(o, var, b, k);
            lemma_msgs_one(
                line,
                drop_message(o, var, b),
                line + k,
                drop_message(shift_decl(o, k), var, shift_decl(b, k)),
                k,
            );
            lemma_msgs_concat(
                e1,
                e2,
                seq![(line, drop_message(o, var, b))],
                seq![((line + k) as nat, drop_message(shift_decl(o, k), var, shift_decl(b, k)))],
                k,
            );
        } else {
            lemma_msgs_empty(k);
            lemma_msgs_concat(
                e1,
                e2,
                Seq::<(nat, Seq<char>)>::empty(),
                Seq::<(nat, Seq<char>)>::empty(),
                k,
            );
        }
    }
}

proof fn lemma_moved_msgs(o: DeclV, bs: Seq<DeclV>, line: nat, k: nat)
    requires
        owner_sound(o, k),
        borrows_sound(bs, k),
    ensures
        msgs_shifted(
            moved_errors(o, bs, line),
            moved_errors(shift_decl(o, k), shift_decls(bs, k), line + k),
            k,
        ),
    decreases bs.len(),
{
    if bs.len() == 0 {
        assert(shift_decls(bs, k) =~= Seq::<DeclV>::empty());
        lemma_msgs_empty(k);
    } else {
        lemma_shift_decls_last(bs, k);
        assert forall|i: int| 0 <= i < bs.drop_last().len() implies borrow_sound(
            #[trigger] bs.drop_last()[i],
            k,
        ) by {
            assert(bs.drop_last()[i] == bs[i]);
        }
        lemma_moved_msgs(o, bs.drop_last(), line, k);
        let b = bs.last();
        assert(borrow_sound(bs[bs.len() - 1], k));
        let e1 = moved_errors(o, bs.drop_last(), line);
        let e2 = moved_errors(shift_decl(o, k), shift_decls(bs.drop_last(), k), line + k);
        if b.label == o.label {
            lemma_moved_message(o, b, k);
            lemma_msgs_one(
                line,
                moved_message(o, b),
                line + k,
                moved_message(shift_decl(o, k), shift_decl(b, k)),
                k,
            );
            lemma_msgs_concat(
                e1,
                e2,
                seq![(line, moved_message(o, b))],
                seq![((line + k) as nat, moved_message(shift_decl(o, k), shift_decl(b, k)))],
                k,
            );
        } else {
            lemma_msgs_empty(k);
            lemma_msgs_concat(
                e1,
                e2,
                Seq::<(nat, Seq<char>)>::empty(),
                Seq::<(nat, Seq<char>)>::empty(),
                k,
            );
        }
    }
}

proof fn lemma_owners_msgs(os: Seq<DeclV>, bs: Seq<DeclV>, var: Seq<char>, d: nat, line: nat, k: nat)
    requires
        owners_sound(os, k),
        borrows_sound(bs, k),
    ensures
        msgs_shifted(
            exit_errors(os, bs, d, line),
            exit_errors(shift_decls(os, k), shift_decls(bs, k), d, line + k),
            k,
        ),
        msgs_shifted(
            drop_errors(os, var, bs, line),
            drop_errors(shift_decls(os, k), var, shift_decls(bs, k), line + k),
            k,
        ),
    decreases os.len(),
{
    if os.len() == 0 {
        assert(shift_decls(os, k) =~= Seq::<DeclV>::empty());
        lemma_msgs_empty(k);
    } else {
        lemma_shift_decls_last(os, k);
        assert forall|i: int| 0 <= i < os.drop_last().len() implies owner_sound(
            #[trigger] os.drop_last()[i],
            k,
        ) by {
            assert(os.drop_last()[i] == os[i]);
        }
        lemma_owners_msgs(os.drop_last(), bs, var, d, line, k);
        let o = os.last();
        assert(owner_sound(os[os.len() - 1], k));
        let so = shift_decls(os.drop_last(), k);
        let sbs = shift_decls(bs, k);
        lemma_msgs_empty(k);
        if o.depth == d {
            lemma_owner_exit_msgs(o, bs, d, line, k);
            lemma_msgs_concat(
                exit_errors(os.drop_last(), bs, d, line),
                exit_errors(so, sbs, d, line + k),
                owner_exit_errors(o, bs, d, line),
                owner_exit_errors(shift_decl(o, k), sbs, d, line + k),
                k,
            );
        } else {
            lemma_msgs_concat(
                exit_errors(os.drop_last(), bs, d, line),
                exit_errors(so, sbs, d, line + k),
                Seq::<(nat, Seq<char>)>::empty(),
                Seq::<(nat, Seq<char>)>::empty(),
                k,
            );
        }
        if o.var == var {
            lemma_owner_drop_msgs(o, var, bs, line, k);
            lemma_msgs_concat(
                drop_errors(os.drop_last(), var, bs, line),
                drop_errors(so, var, sbs, line + k),
                owner_drop_errors(o, var, bs, line),
                owner_drop_errors(shift_decl(o, k), var, sbs, line + k),
                k,
            );
        } else {
            lemma_msgs_concat(
                drop_errors(os.drop_last(), var, bs, line),
                drop_errors(so, var, sbs, line + k),
                Seq::<(nat, Seq<char>)>::empty(),
                Seq::<(nat, Seq<char>)>::empty(),
                k,
            );
        }
    }
}

proof fn lemma_args_msgs(os: Seq<DeclV>, bs: Seq<DeclV>, args: Seq<Seq<char>>, line: nat, k: nat)
    requires
        owners_sound(os, k),
        borrows_sound(bs, k),
    ensures
        msgs_shifted(
            args_moved_errors(os, bs, args, line),
            args_moved_errors(shift_decls(os, k), shift_decls(bs, k), args, line + k),
            k,
        ),
    decreases args.len(),
{
    if args.len() == 0 {
        lemma_msgs_empty(k);
    } else {
        lemma_args_msgs(os, bs, args.drop_last(), line, k);
        let a = seq_trim(args.last());
        lemma_first_owner_named(os, a, k);
        lemma_first_owner_named_in(os, a);
        lemma_msgs_empty(k);
        let e1 = args_moved_errors(os, bs, args.drop_last(), line);
        let e2 = args_moved_errors(shift_decls(os, k), shift_decls(bs, k), args.drop_last(), line + k);
        if spec_is_ident(a) && first_owner_named(os, a) is Some {
            let o = first_owner_named(os, a)->0;
            let j = choose|j: int| 0 <= j < os.len() && os[j] == o;
            assert(owner_sound(os[j], k));
            lemma_moved_msgs(o, bs, line, k);
            lemma_msgs_concat(
                e1,
                e2,
                moved_errors(o, bs, line),
                moved_errors(shift_decl(o, k), shift_decls(bs, k), line + k),
                k,
            );
        } else {
            lemma_msgs_concat(
                e1,
                e2,
                Seq::<(nat, Seq<char>)>::empty(),
                Seq::<(nat, Seq<char>)>::empty(),
                k,
            );
        }
    }
}

proof fn lemma_without_var_at_in(s: Seq<DeclV>, var: Seq<char>, d: nat)
    ensures
        forall|i: int|
            0 <= i < without_var_at(s, var, d).len() ==> s.contains(
                #[trigger] without_var_at(s, var, d)[i],
            ),
    decreases s.len(),
{
    if s.len() > 0 {
        lemma_without_var_at_in(s.drop_last(), var, d);
        let w = without_var_at(s.drop_last(), var, d);
        let tail = if !(s.last().var == var && s.last().depth == d) {
            seq![s.last()]
        } else {
            seq![]
        };
        assert forall|i: int| 0 <= i < (w + tail).len() implies s.contains(#[trigger] (w + tail)[i]) by {
            if i < w.len() {
                assert((w + tail)[i] == w[i]);
                let j = choose|j: int| 0 <= j < s.drop_last().len() && s.drop_last()[j] == w[i];
                assert(s[j] == w[i]);
            } else {
                assert((w + tail)[i] == s[s.len() - 1]);
            }
        }
    }
}

proof fn lemma_without_depth_in(s: Seq<DeclV>, d: nat)
    ensures
        forall|i: int|
            0 <= i < without_depth(s, d).len() ==> s.contains(#[trigger] without_depth(s, d)[i]),
    decreases s.len(),
{
    if s.len() > 0 {
        lemma_without_depth_in(s.drop_last(), d);
        let w = without_depth(s.drop_last(), d);
        let tail = if s.last().depth != d {
            seq![s.last()]
        } else {
            seq![]
        };
        assert forall|i: int| 0 <= i < (w + tail).len() implies s.contains(#[trigger] (w + tail)[i]) by {
            if i < w.len() {
                assert((w + tail)[i] == w[i]);
                let j = choose|j: int| 0 <= j < s.drop_last().len() && s.drop_last()[j] == w[i];
                assert(s[j] == w[i]);
            } else {
                assert((w + tail)[i] == s[s.len() - 1]);
            }
        }
    }
}

proof fn lemma_sound_sub(s: Seq<DeclV>, t: Seq<DeclV>, k: nat)
    requires
        forall|i: int| 0 <= i < t.len() ==> s.contains(#[trigger] t[i]),
    ensures
        owners_sound(s, k) ==> owners_sound(t, k),
        borrows_sound(s, k) ==> borrows_sound(t, k),
{
    assert forall|i: int| 0 <= i < t.len() implies (owners_sound(s, k) ==> owner_sound(#[trigger] t[i], k))
        && (borrows_sound(s, k) ==> borrow_sound(t[i], k)) by {
        assert(s.contains(t[i]));
        let j = choose|j: int| 0 <= j < s.len() && s[j] == t[i];
        if owners_sound(s, k) {
            assert(owner_sound(s[j], k));
        }
        if borrows_sound(s, k) {
            assert(borrow_sound(s[j], k));
        }
    }
}

proof fn lemma_sound_push(s: Seq<DeclV>, x: DeclV, k: nat)
    ensures
        owners_sound(s, k) && owner_sound(x, k) ==> owners_sound(s.push(x), k),
        borrows_sound(s, k) && borrow_sound(x, k) ==> borrows_sound(s.push(x), k),
{
    assert forall|i: int| 0 <= i < s.push(x).len() && i < s.len() implies s.push(x)[i] == s[i] by {}
    if owners_sound(s, k) && owner_sound(x, k) {
        assert forall|i: int| 0 <= i < s.push(x).len() implies owner_sound(#[trigger] s.push(x)[i], k) by {
            if i < s.len() {
                assert(s.push(x)[i] == s[i]);
            }
        }
    }
    if borrows_sound(s, k) && borrow_sound(x, k) {
        assert forall|i: int| 0 <= i < s.push(x).len() implies borrow_sound(#[trigger] s.push(x)[i], k) by {
            if i < s.len() {
                assert(s.push(x)[i] == s[i]);
            }
        }
    }
}

proof fn lemma_extract_free(s: Seq<char>)
    requires
        quote_free(s),
    ensures
        spec_extract_lt_expr_label(s) matches Some((e, l)) ==> quote_free(l),
{
    lemma_keyword_len();
    if seq_starts_with(s, "lt!("@) {
        let bs = s.skip(4);
        lemma_skip_free(s, mark(), 4);
        lemma_lt_close_from(bs, 0, 0);
        match lt_close_from(bs, 0, 0) {
            None => {},
            Some(end) => {
                lemma_skip_free(bs, mark(), end);
                let body = seq_trim(bs.take(end));
                lemma_trim_free(bs.take(end), mark());
                lemma_last_comma_from(body, 0, 0, false, None);
                match spec_find_last_comma(body) {
                    None => {},
                    Some(lc) => {
                        lemma_skip_free(body, mark(), lc + 1);
                        let raw = seq_trim(body.skip(lc + 1));
                        lemma_trim_free(body.skip(lc + 1), mark());
                        if raw.len() >= 2 {
                            lemma_sub_free(raw, mark(), 1, raw.len() - 1);
                        }
                    },
                }
            },
        }
    }
}

proof fn lemma_lt_let_from_sound(word: Seq<char>)
    requires
        quote_free(word),
    ensures
        lt_let_from(word) matches Some((v, e, l)) ==> spec_is_ident(v) && quote_free(l),
    decreases word.len(),
{
    let end = ident_end_from(word, 0);
    lemma_ident_end_from(word, 0);
    let token = word.take(end);
    if 0 < end <= word.len() && (token == "mut"@ || token == "ref"@) {
        crate::text::lemma_trim_start_suffix(word.skip(end));
        lemma_skip_free(word, mark(), end);
        lemma_trim_free(word.skip(end), mark());
        lemma_lt_let_from_sound(seq_trim_start(word.skip(end)));
    } else if !(token.len() == 0 || !spec_is_ident(token)) {
        let tail = word.skip(end);
        match seq_find_char(tail, '=') {
            None => {},
            Some(eq) => {
                lemma_find_char_from(tail, '=', 0);
                lemma_skip_free(word, mark(), end + eq + 1);
                lemma_trim_free(word.skip(end + eq + 1), mark());
                lemma_extract_free(seq_trim(word.skip(end + eq + 1)));
            },
        }
    }
}

/// From a statement that does not spell the quote, an annotated binding
/// has an identifier for a name and a label that does not spell it either.
proof fn lemma_parses_sound(code: Seq<char>)
    requires
        quote_free(code),
    ensures
        spec_parse_lt_let(code) matches Some((v, e, l)) ==> spec_is_ident(v) && quote_free(l),
        spec_parse_lt_assign(code) matches Some((v, e, l)) ==> spec_is_ident(v) && quote_free(l),
{
    let c = seq_trim(code);
    lemma_trim_free(code, mark());
    lemma_keyword_len();
    if seq_starts_with(c, "let "@) {
        lemma_skip_free(c, mark(), 4);
        lemma_trim_free(c.skip(4), mark());
        lemma_lt_let_from_sound(seq_trim_start(c.skip(4)));
    } else {
        match spec_find_non_relational_eq(c) {
            None => {},
            Some(eq) => {
                lemma_eq_from(c, 0, false);
                lemma_skip_free(c, mark(), eq + 1);
                lemma_trim_free(c.skip(eq + 1), mark());
                lemma_extract_free(seq_trim(c.skip(eq + 1)));
            },
        }
    }
}

proof fn lemma_declare_q(a: ScanV, b: ScanV, var: Seq<char>, k: nat)
    requires
        quoted_alike(a, b, k),
    ensures
        quoted_alike(spec_declare(a, var), spec_declare(b, var), k),
{
    lemma_declare(a, b, var, k);
    lemma_without_var_at_in(a.owners, var, a.depth);
    lemma_without_var_at_in(a.borrows, var, a.depth);
    lemma_sound_sub(a.owners, without_var_at(a.owners, var, a.depth), k);
    lemma_sound_sub(a.borrows, without_var_at(a.borrows, var, a.depth), k);
}

proof fn lemma_declare_all_q(a: ScanV, b: ScanV, vars: Seq<Seq<char>>, k: nat)
    requires
        quoted_alike(a, b, k),
    ensures
        quoted_alike(declare_all(a, vars), declare_all(b, vars), k),
    decreases vars.len(),
{
    if vars.len() > 0 {
        lemma_declare_all_q(a, b, vars.drop_last(), k);
        lemma_declare_q(declare_all(a, vars.drop_last()), declare_all(b, vars.drop_last()), vars.last(), k);
    }
}

proof fn lemma_segment_q(a: ScanV, b: ScanV, code: Seq<char>, line: nat, k: nat)
    requires
        quoted_alike(a, b, k),
        quote_free(code),
        line + k <= usize::MAX,
    ensures
        quoted_alike(spec_analyze_segment(a, code, line), spec_analyze_segment(b, code, line + k), k),
{
    lemma_segment(a, b, code, line, k);
    lemma_parses_sound(code);
    lemma_msgs_empty(k);
    match spec_parse_lt_let(code) {
        Some((var, expr, label)) => {
            lemma_declare_q(a, b, var, k);
            let a1 = spec_declare(a, var);
            let decl = DeclV { var, label, line, depth: a.depth };
            lemma_sound_push(a1.owners, decl, k);
            lemma_sound_push(a1.borrows, decl, k);
        },
        None => match spec_parse_destructure(code) {
            Some(vars) => {
                lemma_declare_all_q(a, b, vars, k);
            },
            None => match spec_parse_let(code) {
                Some(var) => {
                    lemma_declare_q(a, b, var, k);
                },
                None => match spec_parse_for(code) {
                    Some(var) => {
                        lemma_declare_q(a, b, var, k);
                    },
                    None => match spec_parse_lt_assign(code) {
                        Some((var, _expr, label)) => {
                            let decl_d = if a.vars.contains_key(var) {
                                a.vars[var]
                            } else {
                                a.depth
                            };
                            let eff_d = if decl_d < a.depth {
                                decl_d
                            } else {
                                a.depth
                            };
                            lemma_sound_push(a.borrows, DeclV { var, label, line, depth: eff_d }, k);
                        },
                        None => match spec_parse_drop(code) {
                            Some(var) => {
                                lemma_owners_msgs(a.owners, a.borrows, var, 0, line, k);
                                lemma_msgs_concat(
                                    a.errors,
                                    b.errors,
                                    drop_errors(a.owners, var, a.borrows, line),
                                    drop_errors(b.owners, var, b.borrows, line + k),
                                    k,
                                );
                            },
                            None => {
                                let c = seq_trim(code);
                                match seq_find_char(c, '(') {
                                    None => {},
                                    Some(lp) => {
                                        match spec_extract_paren_body(c.skip(lp)) {
                                            None => {},
                                            Some(args) => {
                                                lemma_args_msgs(
                                                    a.owners,
                                                    a.borrows,
                                                    spec_split_top_level_commas(args),
                                                    line,
                                                    k,
                                                );
                                            },
                                        }
                                    },
                                }
                                assert(msgs_shifted(
                                    owner_used_errors(a, code, line),
                                    owner_used_errors(b, code, line + k),
                                    k,
                                ));
                                lemma_msgs_concat(
                                    a.errors,
                                    b.errors,
                                    owner_used_errors(a, code, line),
                                    owner_used_errors(b, code, line + k),
                                    k,
                                );
                            },
                        },
                    },
                },
            },
        },
    }
}

proof fn lemma_pieces_q(a: ScanV, b: ScanV, pieces: Seq<Seq<char>>, line: nat, k: nat)
    requires
        quoted_alike(a, b, k),
        forall|i: int| 0 <= i < pieces.len() ==> quote_free(#[trigger] pieces[i]),
        line + k <= usize::MAX,
    ensures
        quoted_alike(analyze_pieces(a, pieces, line), analyze_pieces(b, pieces, line + k), k),
    decreases pieces.len(),
{
    if pieces.len() > 0 {
        assert forall|i: int| 0 <= i < pieces.drop_last().len() implies quote_free(
            #[trigger] pieces.drop_last()[i],
        ) by {
            assert(pieces.drop_last()[i] == pieces[i]);
        }
        lemma_pieces_q(a, b, pieces.drop_last(), line, k);
        assert(quote_free(pieces[pieces.len() - 1]));
        lemma_trim_free(pieces.last(), mark());
        lemma_segment_q(
            analyze_pieces(a, pieces.drop_last(), line),
            analyze_pieces(b, pieces.drop_last(), line + k),
            seq_trim(pieces.last()),
            line,
            k,
        );
    }
}

proof fn lemma_flush_q(a: ScanV, b: ScanV, seg: Seq<char>, line: nat, k: nat)
    requires
        quoted_alike(a, b, k),
        quote_free(seg),
        line + k <= usize::MAX,
    ensures
        quoted_alike(flush_segment(a, seg, line), flush_segment(b, seg, line + k), k),
{
    lemma_trim_free(seg, mark());
    lemma_strip_comment_free(seq_trim(seg), mark());
    let st = spec_strip_comment(seq_trim(seg));
    lemma_split_free(st, ';', mark());
    lemma_pieces_q(a, b, seq_split(st, ';'), line, k);
}

proof fn lemma_brace_q(a: ScanV, b: ScanV, ch: char, line: nat, k: nat)
    requires
        quoted_alike(a, b, k),
    ensures
        quoted_alike(brace(a, ch, line), brace(b, ch, line + k), k),
{
    lemma_brace(a, b, ch, line, k);
    if ch == '}' {
        lemma_owners_msgs(a.owners, a.borrows, seq![], a.depth, line, k);
        lemma_msgs_concat(
            a.errors,
            b.errors,
            exit_errors(a.owners, a.borrows, a.depth, line),
            exit_errors(b.owners, b.borrows, b.depth, line + k),
            k,
        );
        lemma_without_depth_in(a.owners, a.depth);
        lemma_without_depth_in(a.borrows, a.depth);
        lemma_sound_sub(a.owners, without_depth(a.owners, a.depth), k);
        lemma_sound_sub(a.borrows, without_depth(a.borrows, a.depth), k);
    }
}

proof fn lemma_walk_q(
    a: ScanV,
    b: ScanV,
    s: Seq<char>,
    line: nat,
    j: int,
    seg_start: int,
    in_str: bool,
    k: nat,
)
    requires
        quoted_alike(a, b, k),
        quote_free(s),
        0 <= seg_start <= s.len(),
        seg_start <= j || j >= s.len(),
        line + k <= usize::MAX,
    ensures
        quoted_alike(
            scan_walk(a, s, line, j, seg_start, in_str),
            scan_walk(b, s, line + k, j, seg_start, in_str),
            k,
        ),
    decreases s.len() - j,
{
    if j < 0 || j >= s.len() {
        lemma_sub_free(s, mark(), seg_start, s.len() as int);
        lemma_flush_q(a, b, s.subrange(seg_start, s.len() as int), line, k);
    } else {
        let ch = s[j];
        if ch == '"' {
            lemma_walk_q(a, b, s, line, j + 1, seg_start, !in_str, k);
        } else if in_str {
            lemma_walk_q(a, b, s, line, j + 1, seg_start, in_str, k);
        } else if ch == '}' || ch == '{' {
            lemma_sub_free(s, mark(), seg_start, j);
            let a1 = flush_segment(a, s.subrange(seg_start, j), line);
            let b1 = flush_segment(b, s.subrange(seg_start, j), line + k);
            lemma_flush_q(a, b, s.subrange(seg_start, j), line, k);
            lemma_brace_q(a1, b1, ch, line, k);
            lemma_walk_q(brace(a1, ch, line), brace(b1, ch, line + k), s, line, j + 1, j + 1, in_str, k);
        } else {
            lemma_walk_q(a, b, s, line, j + 1, seg_start, in_str, k);
        }
    }
}

proof fn lemma_process_q(a: ScanV, b: ScanV, ls: Seq<(nat, Seq<char>)>, k: nat)
    requires
        quoted_alike(a, b, k),
        forall|i: int| 0 <= i < ls.len() ==> quote_free((#[trigger] ls[i]).1) && ls[i].0 + k <= usize::MAX,
    ensures
        quoted_alike(process_lines(a, ls), process_lines(b, shift_pairs(ls, k)), k),
    decreases ls.len(),
{
    if ls.len() > 0 {
        let sh = shift_pairs(ls, k);
        assert(sh.drop_last() =~= shift_pairs(ls.drop_last(), k));
        assert(sh.last() == ((ls.last().0 + k) as nat, ls.last().1));
        assert forall|i: int| 0 <= i < ls.drop_last().len() implies quote_free(
            (#[trigger] ls.drop_last()[i]).1,
        ) && ls.drop_last()[i].0 + k <= usize::MAX by {
            assert(ls.drop_last()[i] == ls[i]);
        }
        lemma_process_q(a, b, ls.drop_last(), k);
        let a1 = process_lines(a, ls.drop_last());
        let b1 = process_lines(b, sh.drop_last());
        assert(quote_free(ls[ls.len() - 1].1) && ls[ls.len() - 1].0 + k <= usize::MAX);
        lemma_trim_free(ls.last().1, mark());
        lemma_walk_q(a1, b1, seq_trim(ls.last().1), ls.last().0, 0, 0, false, k);
    }
}

/// Blank lines in front of a text move every violation down by as many
/// lines, and change neither their number nor their order. Where the text
/// never spells `(declared at line `, shifting the quoted lines of each new
/// message back by as many gives the message of the text itself.
pub proof fn law_blank_lines_shift_violations(src: Seq<char>, k: nat)
    requires
        spec_scannable(src),
    ensures
        spec_scannable(newlines(k) + src),
        lines_shifted(spec_check_source(src), spec_check_source(newlines(k) + src), k),
        quote_free(src) && src.len() + k < usize::MAX ==> msgs_shifted(
            spec_check_source(src),
            spec_check_source(newlines(k) + src),
            k,
        ),
{
    let t = newlines(k) + src;
    lemma_lines_concat(newlines(k), src);
    lemma_lines_newlines(k);
    let ls = seq_lines(src);
    assert(seq_lines(t) == blank_lines(k) + ls);
    lemma_join_shift(k, ls);
    let (res, pend) = join_state(ls)->0;
    let j1 = spec_join_lt_lines(src)->0;
    let j2 = spec_join_lt_lines(t)->0;
    assert(j2 =~= blank_pairs(k) + shift_pairs(j1, k));
    lemma_process_concat(initial_scan(), blank_pairs(k), shift_pairs(j1, k));
    lemma_process_blank(initial_scan(), k);
    let st = initial_scan();
    assert(shift_decls(st.owners, k) =~= st.owners);
    assert(shift_decls(st.borrows, k) =~= st.borrows);
    assert(shifted(st, st, k));
    lemma_process(st, st, j1, k);
    if quote_free(src) && src.len() + k < usize::MAX {
        reveal_strlit("(declared at line ");
        assert(!mark().contains('\n')) by {
            if mark().contains('\n') {
                let i = choose|i: int| 0 <= i < mark().len() && mark()[i] == '\n';
                assert(0 <= i < 18);
            }
        }
        lemma_lines_free(src, mark());
        lemma_join_state_free(ls, mark());
        lemma_join_state_lines(ls);
        lemma_lines_len(src);
        assert forall|i: int| 0 <= i < j1.len() implies quote_free((#[trigger] j1[i]).1) && j1[i].0
            + k <= usize::MAX by {
            match pend {
                Some(p) => {
                    if i < res.len() {
                        assert(j1[i] == res[i]);
                    } else {
                        assert(j1[i] == p);
                    }
                },
                None => {
                    assert(j1[i] == res[i]);
                },
            }
        }
        lemma_msgs_empty(k);
        assert(quoted_alike(st, st, k));
        lemma_process_q(st, st, j1, k);
    }
}

} // verus!
