//! Checking a source text: logical lines are walked character by character;
//! `{` and `}` outside string literals open and close scopes, and the text
//! between them (comments removed) is split at `;` into statements for the
//! scanner.
use vstd::prelude::*;
use crate::text::{
    chars_to_string, lemma_trim_end_prefix, lemma_trim_start_suffix, seq_split, seq_starts_with,
    seq_trim, split_char, starts_with_str, str_chars, trim, views,
};
use crate::syntax::{spec_strip_comment, strip_comment, lemma_trim_len};
use crate::joining::{join_lt_lines, join_state, lemma_join_state_lines, pairs_view, spec_join_lt_lines};
use crate::scanner::{
    args_moved_errors, declare_all, drop_errors, drop_message, errors_view, exit_errors,
    first_owner_named, initial_scan, moved_errors, moved_message, outlives, owner_drop_errors,
    owner_exit_errors, owner_used_errors, scope_exit_message, spec_analyze_segment,
    spec_exit_scope, DeclV, ScanV, Scanner,
};
use crate::numbers::spec_decimal;
use crate::text::seq_find_char;
use crate::syntax::{
    spec_extract_paren_body, spec_is_ident, spec_parse_destructure, spec_parse_drop, spec_parse_for,
    spec_parse_let, spec_parse_lt_assign, spec_parse_lt_let, spec_split_top_level_commas,
};

verus! {

broadcast use vstd::string::group_string_axioms;

/// The statements of a segment, in order: each piece between `;`, trimmed,
/// unless empty.
pub open spec fn analyze_pieces(st: ScanV, pieces: Seq<Seq<char>>, line: nat) -> ScanV
    decreases pieces.len(),
{
    if pieces.len() == 0 {
        st
    } else {
        let st1 = analyze_pieces(st, pieces.drop_last(), line);
        let t = seq_trim(pieces.last());
        if t.len() == 0 {
            st1
        } else {
            spec_analyze_segment(st1, t, line)
        }
    }
}

/// The text of a segment, trimmed and without its `//` comment, analysed
/// statement by statement.
pub open spec fn flush_segment(st: ScanV, seg_raw: Seq<char>, line: nat) -> ScanV {
    let seg = spec_strip_comment(seq_trim(seg_raw));
    if seg.len() == 0 {
        st
    } else {
        analyze_pieces(st, seq_split(seg, ';'), line)
    }
}

/// At `}` the scope closes and the depth goes down (never below zero); at
/// `{` a scope opens.
pub open spec fn brace(st: ScanV, ch: char, line: nat) -> ScanV {
    if ch == '}' {
        let e = spec_exit_scope(st, line);
        ScanV {
            depth: if e.depth > 0 {
                (e.depth - 1) as nat
            } else {
                0
            },
            ..e
        }
    } else {
        ScanV { depth: st.depth + 1, ..st }
    }
}

/// Walking line `s` from index `j`, the current segment starting at
/// `seg_start`, inside a string literal or not.
pub open spec fn scan_walk(st: ScanV, s: Seq<char>, line: nat, j: int, seg_start: int, in_str: bool) -> ScanV
    decreases s.len() - j,
{
    if j < 0 || j >= s.len() {
        flush_segment(st, s.subrange(seg_start, s.len() as int), line)
    } else {
        let ch = s[j];
        if ch == '"' {
            scan_walk(st, s, line, j + 1, seg_start, !in_str)
        } else if in_str {
            scan_walk(st, s, line, j + 1, seg_start, in_str)
        } else if ch == '}' || ch == '{' {
            let st1 = flush_segment(st, s.subrange(seg_start, j), line);
            scan_walk(brace(st1, ch, line), s, line, j + 1, j + 1, in_str)
        } else {
            scan_walk(st, s, line, j + 1, seg_start, in_str)
        }
    }
}

/// One logical line: blank lines and a line holding only `#[cfg(test)]` are
/// skipped.
pub open spec fn process_line(st: ScanV, line_num: nat, raw: Seq<char>) -> ScanV {
    let s = seq_trim(raw);
    if s.len() == 0 {
        st
    } else if seq_starts_with(s, "#[cfg(test)]"@) && seq_trim(s.skip(12)).len() == 0 {
        st
    } else {
        scan_walk(st, s, line_num, 0, 0, false)
    }
}

pub open spec fn process_lines(st: ScanV, ls: Seq<(nat, Seq<char>)>) -> ScanV
    decreases ls.len(),
{
    if ls.len() == 0 {
        st
    } else {
        let last = ls.last();
        process_line(process_lines(st, ls.drop_last()), last.0, last.1)
    }
}

/// The violations found in `src`, each with its line (counting from 1) and
/// its message, in the order they are found.
pub open spec fn spec_check_source(src: Seq<char>) -> Seq<(nat, Seq<char>)> {
    match spec_join_lt_lines(src) {
        Some(ls) => process_lines(initial_scan(), ls).errors,
        None => seq![],
    }
}

/// The texts whose lines the search for `lt!(` can take apart.
pub open spec fn spec_scannable(src: Seq<char>) -> bool {
    spec_join_lt_lines(src) is Some
}

pub open spec fn strings_view(v: Seq<(usize, String)>) -> Seq<(nat, Seq<char>)> {
    v.map_values(|e: (usize, String)| (e.0 as nat, e.1@))
}

// ------------------------------------------------------------------
// Lengths, to bound the scope depth
// ------------------------------------------------------------------

pub open spec fn total_len(ls: Seq<Seq<char>>) -> nat
    decreases ls.len(),
{
    if ls.len() == 0 {
        0
    } else {
        total_len(ls.drop_last()) + ls.last().len()
    }
}

pub open spec fn pairs_len(ls: Seq<(nat, Seq<char>)>) -> nat
    decreases ls.len(),
{
    if ls.len() == 0 {
        0
    } else {
        pairs_len(ls.drop_last()) + ls.last().1.len()
    }
}

proof fn lemma_total_len_prepend(x: Seq<char>, ls: Seq<Seq<char>>)
    ensures
        total_len(seq![x] + ls) == x.len() + total_len(ls),
    decreases ls.len(),
{
    let xs = seq![x] + ls;
    if ls.len() == 0 {
        assert(xs.drop_last() =~= Seq::<Seq<char>>::empty());
        assert(xs.last() == x);
        assert(total_len(xs.drop_last()) == 0);
        assert(total_len(xs) == total_len(xs.drop_last()) + xs.last().len());
    } else {
        lemma_total_len_prepend(x, ls.drop_last());
        assert(xs.drop_last() =~= seq![x] + ls.drop_last());
        assert(xs.last() == ls.last());
        assert(total_len(xs) == total_len(xs.drop_last()) + xs.last().len());
        assert(total_len(ls) == total_len(ls.drop_last()) + ls.last().len());
    }
}

pub proof fn lemma_lines_len(s: Seq<char>)
    ensures
        total_len(crate::text::seq_lines(s)) + crate::text::seq_lines(s).len() <= s.len() + 1,
    decreases s.len(),
{
    if s.len() > 0 {
        match crate::text::seq_find_char(s, '\n') {
            None => {
                let l = crate::text::seq_lines(s);
                assert(l == seq![s]);
                assert(l.drop_last() =~= Seq::<Seq<char>>::empty());
                assert(total_len(l.drop_last()) == 0);
                assert(total_len(l) == total_len(l.drop_last()) + l.last().len());
            },
            Some(k) => {
                crate::text::lemma_find_char_from(s, '\n', 0);
                lemma_lines_len(s.skip(k + 1));
                let t = crate::text::strip_cr(s.take(k));
                assert(t.len() <= k);
                assert(crate::text::seq_lines(s) == seq![t] + crate::text::seq_lines(s.skip(k + 1)));
                lemma_total_len_prepend(
                    crate::text::strip_cr(s.take(k)),
                    crate::text::seq_lines(s.skip(k + 1)),
                );
            },
        }
    }
}

proof fn lemma_join_len(ls: Seq<Seq<char>>)
    requires
        join_state(ls) is Some,
    ensures
        ({
            let (res, pend) = join_state(ls)->0;
            pairs_len(res) + res.len() + match pend {
                Some(p) => p.1.len() + 1,
                None => 0,
            } <= total_len(ls) + ls.len()
        }),
    decreases ls.len(),
{
    if ls.len() > 0 {
        lemma_join_len(ls.drop_last());
        let (res, pend) = join_state(ls.drop_last())->0;
        match pend {
            Some(p) => {
                let acc = p.1 + seq!['\n'] + ls.last();
                if (join_state(ls)->0).1 is None {
                    assert(res.push((p.0, acc)).drop_last() =~= res);
                }
            },
            None => {
                if (join_state(ls)->0).1 is None {
                    assert(res.push((ls.len() as nat, ls.last())).drop_last() =~= res);
                }
            },
        }
    }
}

/// The logical lines of a text hold at most one character more than it.
proof fn lemma_joined_len(src: Seq<char>)
    requires
        spec_join_lt_lines(src) is Some,
    ensures
        pairs_len(spec_join_lt_lines(src)->0) <= src.len() + 1,
{
    let ls = crate::text::seq_lines(src);
    lemma_lines_len(src);
    lemma_join_len(ls);
    let (res, pend) = join_state(ls)->0;
    match pend {
        Some(p) => {
            assert(res.push(p).drop_last() =~= res);
        },
        None => {},
    }
}

pub proof fn lemma_total_len_take(ls: Seq<Seq<char>>, k: int)
    requires
        0 <= k < ls.len(),
    ensures
        total_len(ls.take(k + 1)) == total_len(ls.take(k)) + ls[k].len(),
        total_len(ls.take(k + 1)) <= total_len(ls),
    decreases ls.len() - k,
{
    assert(ls.take(k + 1).drop_last() =~= ls.take(k));
    if k + 1 < ls.len() {
        lemma_total_len_take(ls, k + 1);
    } else {
        assert(ls.take(k + 1) =~= ls);
    }
}

proof fn lemma_pairs_len_take(ls: Seq<(nat, Seq<char>)>, k: int)
    requires
        0 <= k < ls.len(),
    ensures
        pairs_len(ls.take(k + 1)) == pairs_len(ls.take(k)) + ls[k].1.len(),
        pairs_len(ls.take(k + 1)) <= pairs_len(ls),
    decreases ls.len() - k,
{
    assert(ls.take(k + 1).drop_last() =~= ls.take(k));
    if k + 1 < ls.len() {
        lemma_pairs_len_take(ls, k + 1);
    } else {
        assert(ls.take(k + 1) =~= ls);
    }
}

// ------------------------------------------------------------------
// Executable checking
// ------------------------------------------------------------------

impl Scanner {
    fn analyze_each(&mut self, pieces: &Vec<Vec<char>>, line: usize)
        ensures
            final(self)@ == analyze_pieces(old(self)@, views(pieces@), line as nat),
            final(self).depth == old(self).depth,
    {
        let ghost ps = views(pieces@);
        let mut i: usize = 0;
        assert(ps.take(0) =~= Seq::<Seq<char>>::empty());
        while i < pieces.len()
            invariant
                i <= pieces@.len(),
                ps == views(pieces@),
                self.depth == old(self).depth,
                self@ == analyze_pieces(old(self)@, ps.take(i as int), line as nat),
            decreases pieces@.len() - i,
        {
            assert(ps.take(i + 1).drop_last() =~= ps.take(i as int));
            assert(ps.take(i + 1).last() == pieces@[i as int]@);
            let sub = trim(pieces[i].as_slice());
            if sub.len() > 0 {
                self.analyze_segment(sub, line);
            }
            i += 1;
        }
        assert(ps.take(i as int) =~= ps);
    }

    fn flush_segment(&mut self, seg_raw: &[char], line: usize)
        ensures
            final(self)@ == flush_segment(old(self)@, seg_raw@, line as nat),
            final(self).depth == old(self).depth,
    {
        let seg = strip_comment(trim(seg_raw));
        if seg.len() > 0 {
            let pieces = split_char(seg, ';');
            self.analyze_each(&pieces, line);
        }
    }

    /// Walks one logical line.
    pub fn scan_line(&mut self, line_num: usize, raw: &[char])
        requires
            old(self).depth + raw@.len() <= usize::MAX,
        ensures
            final(self)@ == process_line(old(self)@, line_num as nat, raw@),
            final(self).depth <= old(self).depth + raw@.len(),
    {
        let s = trim(raw);
        proof {
            lemma_trim_len(raw@);
        }
        if s.len() == 0 {
            return;
        }
        if starts_with_str(s, "#[cfg(test)]") {
            proof {
                reveal_strlit("#[cfg(test)]");
            }
            let tail = &s[12..s.len()];
            assert(tail@ =~= s@.skip(12));
            let rest = trim(tail);
            if rest.len() == 0 {
                return;
            }
        }
        let ghost st0 = self@;
        let ghost d0 = self.depth;
        let mut seg_start: usize = 0;
        let mut in_str = false;
        let mut j: usize = 0;
        while j < s.len()
            invariant
                s@ == seq_trim(raw@),
                s@.len() <= raw@.len(),
                d0 == old(self).depth,
                st0 == old(self)@,
                d0 + raw@.len() <= usize::MAX,
                seg_start <= j <= s@.len(),
                self.depth <= d0 + j,
                scan_walk(st0, s@, line_num as nat, 0, 0, false) == scan_walk(
                    self@,
                    s@,
                    line_num as nat,
                    j as int,
                    seg_start as int,
                    in_str,
                ),
            decreases s@.len() - j,
        {
            let ch = s[j];
            if ch == '"' {
                in_str = !in_str;
                j += 1;
                continue;
            }
            if in_str {
                j += 1;
                continue;
            }
            if ch == '}' || ch == '{' {
                let seg = &s[seg_start..j];
                self.flush_segment(seg, line_num);
                if ch == '}' {
                    self.exit_scope(line_num);
                    self.depth = self.depth.saturating_sub(1);
                } else {
                    self.depth = self.depth + 1;
                }
                seg_start = j + 1;
            }
            j += 1;
        }
        let seg = &s[seg_start..s.len()];
        self.flush_segment(seg, line_num);
    }
}

/// Whether the lines of `src` can be taken apart by the search for `lt!(`
/// (see [`check_source`]).
pub fn scannable(src: &str) -> (b: bool)
    ensures
        b == spec_scannable(src@),
{
    let chars = str_chars(src);
    join_lt_lines(&chars).is_some()
}

fn errors_to_strings(errs: &Vec<(usize, Vec<char>)>) -> (r: Vec<(usize, String)>)
    ensures
        strings_view(r@) == errors_view(errs@),
{
    let mut r: Vec<(usize, String)> = Vec::new();
    let mut i: usize = 0;
    assert(strings_view(r@) =~= errors_view(errs@).take(0));
    while i < errs.len()
        invariant
            i <= errs@.len(),
            strings_view(r@) == errors_view(errs@).take(i as int),
        decreases errs@.len() - i,
    {
        let ghost before = strings_view(r@);
        let line = errs[i].0;
        let msg = chars_to_string(errs[i].1.as_slice());
        r.push((line, msg));
        assert(strings_view(r@) =~= before.push((line as nat, errs@[i as int].1@)));
        assert(errors_view(errs@).take(i + 1) =~= errors_view(errs@).take(i as int).push(
            (line as nat, errs@[i as int].1@),
        ));
        i += 1;
    }
    assert(errors_view(errs@).take(i as int) =~= errors_view(errs@));
    r
}

/// The lifetime violations in a source text, each with the line where it is
/// found and its message.
///
/// Texts on which the search for `lt!(` would have to compare part of a
/// multi-byte character are left out (see [`scannable`]).
pub fn check_source(src: &str) -> (r: Vec<(usize, String)>)
    requires
        spec_scannable(src@),
        src@.len() < usize::MAX,
    ensures
        strings_view(r@) == spec_check_source(src@),
{
    let chars = str_chars(src);
    let lines = match join_lt_lines(&chars) {
        Some(v) => v,
        None => {
            return Vec::new();
        },
    };
    let ghost ls = pairs_view(lines@);
    proof {
        lemma_joined_len(src@);
    }
    let mut sc = Scanner::new();
    let mut k: usize = 0;
    assert(ls.take(0) =~= Seq::<(nat, Seq<char>)>::empty());
    while k < lines.len()
        invariant
            k <= lines@.len(),
            ls == pairs_view(lines@),
            spec_join_lt_lines(src@) == Some(ls),
            pairs_len(ls) <= src@.len() + 1,
            src@.len() < usize::MAX,
            sc.depth <= pairs_len(ls.take(k as int)),
            sc@ == process_lines(initial_scan(), ls.take(k as int)),
        decreases lines@.len() - k,
    {
        proof {
            lemma_pairs_len_take(ls, k as int);
        }
        assert(ls.take(k + 1).drop_last() =~= ls.take(k as int));
        assert(ls.take(k + 1).last() == ls[k as int]);
        let line_num = lines[k].0;
        assert(lines@[k as int].1@ == ls[k as int].1);
        sc.scan_line(line_num, lines[k].1.as_slice());
        k += 1;
    }
    assert(ls.take(k as int) =~= ls);
    errors_to_strings(&sc.errors)
}


// ------------------------------------------------------------------
// What every reported violation looks like
// ------------------------------------------------------------------

/// A violation on a line between `lo` and `max`, whose message starts with
/// the `[label]` of the owner and ends with `)`.
pub open spec fn error_ok(e: (nat, Seq<char>), lo: nat, max: nat) -> bool {
    &&& lo <= e.0 <= max
    &&& e.1.len() > 0
    &&& e.1[0] == '['
    &&& e.1.last() == ')'
}

pub open spec fn errors_ok(es: Seq<(nat, Seq<char>)>, lo: nat, max: nat) -> bool {
    forall|i: int| 0 <= i < es.len() ==> error_ok(#[trigger] es[i], lo, max)
}

/// `after` is `before` followed by violations on line `line` only.
pub open spec fn appends_at(before: Seq<(nat, Seq<char>)>, after: Seq<(nat, Seq<char>)>, line: nat) -> bool {
    &&& before.len() <= after.len()
    &&& after.take(before.len() as int) == before
    &&& errors_ok(after.skip(before.len() as int), line, line)
}

/// The violations come in the order of their lines, none after line `max`.
pub open spec fn ordered_upto(es: Seq<(nat, Seq<char>)>, max: nat) -> bool {
    &&& forall|i: int, j: int| 0 <= i < j < es.len() ==> es[i].0 <= es[j].0
    &&& forall|i: int| 0 <= i < es.len() ==> (#[trigger] es[i]).0 <= max
}

pub proof fn lemma_errors_ok_concat(a: Seq<(nat, Seq<char>)>, b: Seq<(nat, Seq<char>)>, lo: nat, max: nat)
    requires
        errors_ok(a, lo, max),
        errors_ok(b, lo, max),
    ensures
        errors_ok(a + b, lo, max),
{
    assert forall|i: int| 0 <= i < (a + b).len() implies error_ok(#[trigger] (a + b)[i], lo, max) by {
        if i < a.len() {
            assert((a + b)[i] == a[i]);
        } else {
            assert((a + b)[i] == b[i - a.len()]);
        }
    }
}

pub proof fn lemma_errors_ok_widen(es: Seq<(nat, Seq<char>)>, lo: nat, max: nat, lo2: nat, max2: nat)
    requires
        errors_ok(es, lo, max),
        lo2 <= lo,
        max <= max2,
    ensures
        errors_ok(es, lo2, max2),
{
    assert forall|i: int| 0 <= i < es.len() implies error_ok(#[trigger] es[i], lo2, max2) by {
        assert(error_ok(es[i], lo, max));
    }
}

pub proof fn lemma_appends_same(a: Seq<(nat, Seq<char>)>, line: nat)
    ensures
        appends_at(a, a, line),
{
    assert(a.take(a.len() as int) =~= a);
    assert(a.skip(a.len() as int) =~= Seq::<(nat, Seq<char>)>::empty());
}

pub proof fn lemma_appends_concat(a: Seq<(nat, Seq<char>)>, b: Seq<(nat, Seq<char>)>, line: nat)
    requires
        errors_ok(b, line, line),
    ensures
        appends_at(a, a + b, line),
{
    assert((a + b).take(a.len() as int) =~= a);
    assert((a + b).skip(a.len() as int) =~= b);
}

pub proof fn lemma_appends_trans(
    a: Seq<(nat, Seq<char>)>,
    b: Seq<(nat, Seq<char>)>,
    c: Seq<(nat, Seq<char>)>,
    line: nat,
)
    requires
        appends_at(a, b, line),
        appends_at(b, c, line),
    ensures
        appends_at(a, c, line),
{
    assert(c.take(a.len() as int) =~= c.take(b.len() as int).take(a.len() as int));
    assert forall|k: int| 0 <= k < b.len() implies #[trigger] c[k] == b[k] by {
        assert(c.take(b.len() as int)[k] == c[k]);
    }
    assert(c.skip(a.len() as int) =~= b.skip(a.len() as int) + c.skip(b.len() as int));
    lemma_errors_ok_concat(b.skip(a.len() as int), c.skip(b.len() as int), line, line);
}

/// Appending violations of line `line` keeps them well formed between `lo`
/// and `max`, and keeps them in line order when `line` is the latest line.
pub proof fn lemma_appends_keep(
    a: Seq<(nat, Seq<char>)>,
    b: Seq<(nat, Seq<char>)>,
    line: nat,
    lo: nat,
    max: nat,
)
    requires
        appends_at(a, b, line),
        lo <= line <= max,
    ensures
        errors_ok(a, lo, max) ==> errors_ok(b, lo, max),
        ordered_upto(a, line) ==> ordered_upto(b, line),
{
    let tail = b.skip(a.len() as int);
    assert(b =~= a + tail);
    if errors_ok(a, lo, max) {
        lemma_errors_ok_widen(tail, line, line, lo, max);
        lemma_errors_ok_concat(a, tail, lo, max);
    }
    if ordered_upto(a, line) {
        assert forall|i: int, j: int| 0 <= i < j < b.len() implies b[i].0 <= b[j].0 by {
            if j >= a.len() {
                assert(b[j] == tail[j - a.len()]);
                assert(error_ok(tail[j - a.len()], line, line));
                if i >= a.len() {
                    assert(b[i] == tail[i - a.len()]);
                    assert(error_ok(tail[i - a.len()], line, line));
                } else {
                    assert(b[i] == a[i]);
                }
            } else {
                assert(b[i] == a[i] && b[j] == a[j]);
            }
        }
        assert forall|i: int| 0 <= i < b.len() implies (#[trigger] b[i]).0 <= line by {
            if i >= a.len() {
                assert(b[i] == tail[i - a.len()]);
                assert(error_ok(tail[i - a.len()], line, line));
            } else {
                assert(b[i] == a[i]);
            }
        }
    }
}

proof fn lemma_message_shape(m: Seq<char>, head: Seq<char>, middle: Seq<char>, tail: Seq<char>)
    requires
        m == head + middle + tail,
        head.len() > 0,
        head[0] == '[',
        tail.len() > 0,
        tail.last() == ')',
    ensures
        m.len() > 0,
        m[0] == '[',
        m.last() == ')',
{
    assert(m[0] == head[0]);
    assert(m[m.len() - 1] == tail[tail.len() - 1]);
}

proof fn lemma_messages_shape(o: DeclV, b: DeclV, var: Seq<char>)
    ensures
        scope_exit_message(o, b).len() > 0 && scope_exit_message(o, b)[0] == '['
            && scope_exit_message(o, b).last() == ')',
        moved_message(o, b).len() > 0 && moved_message(o, b)[0] == '[' && moved_message(o, b).last()
            == ')',
        drop_message(o, var, b).len() > 0 && drop_message(o, var, b)[0] == '['
            && drop_message(o, var, b).last() == ')',
{
    reveal_strlit("[");
    reveal_strlit(") still has active borrow(s)");
    reveal_strlit(") has active borrow(s)");
    let m1 = scope_exit_message(o, b);
    let mid1 = o.label + "] `"@ + o.var + "` (declared at line "@ + spec_decimal(o.line)
        + ") dropped at end of scope but `"@ + b.var + "` (declared at line "@ + spec_decimal(
        b.line,
    );
    assert(m1 =~= "["@ + mid1 + ") still has active borrow(s)"@);
    lemma_message_shape(m1, "["@, mid1, ") still has active borrow(s)"@);
    let m2 = moved_message(o, b);
    let mid2 = o.label + "] `"@ + o.var + "` passed to function while `"@ + b.var
        + "` (declared at line "@ + spec_decimal(b.line);
    assert(m2 =~= "["@ + mid2 + ") has active borrow(s)"@);
    lemma_message_shape(m2, "["@, mid2, ") has active borrow(s)"@);
    let m3 = drop_message(o, var, b);
    let mid3 = o.label + "] `drop("@ + var + ")` called but `"@ + b.var + "` (declared at line "@
        + spec_decimal(b.line);
    assert(m3 =~= "["@ + mid3 + ") has active borrow(s)"@);
    lemma_message_shape(m3, "["@, mid3, ") has active borrow(s)"@);
}

proof fn lemma_single_error_ok(line: nat, m: Seq<char>)
    requires
        m.len() > 0,
        m[0] == '[',
        m.last() == ')',
    ensures
        errors_ok(seq![(line, m)], line, line),
{
    assert forall|i: int| 0 <= i < 1 implies error_ok(#[trigger] seq![(line, m)][i], line, line) by {}
}

proof fn lemma_none_ok(line: nat)
    ensures
        errors_ok(Seq::<(nat, Seq<char>)>::empty(), line, line),
{
}

proof fn lemma_owner_exit_errors_ok(o: DeclV, bs: Seq<DeclV>, d: nat, line: nat)
    ensures
        errors_ok(owner_exit_errors(o, bs, d, line), line, line),
    decreases bs.len(),
{
    if bs.len() > 0 {
        lemma_owner_exit_errors_ok(o, bs.drop_last(), d, line);
        lemma_messages_shape(o, bs.last(), seq![]);
        if outlives(o, bs.last(), d) {
            lemma_single_error_ok(line, scope_exit_message(o, bs.last()));
        }
        lemma_errors_ok_concat(
            owner_exit_errors(o, bs.drop_last(), d, line),
            if outlives(o, bs.last(), d) {
                seq![(line, scope_exit_message(o, bs.last()))]
            } else {
                seq![]
            },
            line,
            line,
        );
    }
}

/// The violations of a scope exit are all on its line.
pub proof fn lemma_exit_errors_ok(os: Seq<DeclV>, bs: Seq<DeclV>, d: nat, line: nat)
    ensures
        errors_ok(exit_errors(os, bs, d, line), line, line),
    decreases os.len(),
{
    if os.len() > 0 {
        lemma_exit_errors_ok(os.drop_last(), bs, d, line);
        lemma_owner_exit_errors_ok(os.last(), bs, d, line);
        lemma_errors_ok_concat(
            exit_errors(os.drop_last(), bs, d, line),
            if os.last().depth == d {
                owner_exit_errors(os.last(), bs, d, line)
            } else {
                seq![]
            },
            line,
            line,
        );
    }
}

proof fn lemma_owner_drop_errors_ok(o: DeclV, var: Seq<char>, bs: Seq<DeclV>, line: nat)
    ensures
        errors_ok(owner_drop_errors(o, var, bs, line), line, line),
    decreases bs.len(),
{
    if bs.len() > 0 {
        lemma_owner_drop_errors_ok(o, var, bs.drop_last(), line);
        lemma_messages_shape(o, bs.last(), var);
        let cond = bs.last().label == o.label && bs.last().line < line;
        if cond {
            lemma_single_error_ok(line, drop_message(o, var, bs.last()));
        }
        lemma_errors_ok_concat(
            owner_drop_errors(o, var, bs.drop_last(), line),
            if cond {
                seq![(line, drop_message(o, var, bs.last()))]
            } else {
                seq![]
            },
            line,
            line,
        );
    }
}

/// The violations of a `drop(..)` are all on its line.
pub proof fn lemma_drop_errors_ok(os: Seq<DeclV>, var: Seq<char>, bs: Seq<DeclV>, line: nat)
    ensures
        errors_ok(drop_errors(os, var, bs, line), line, line),
    decreases os.len(),
{
    if os.len() > 0 {
        lemma_drop_errors_ok(os.drop_last(), var, bs, line);
        lemma_owner_drop_errors_ok(os.last(), var, bs, line);
        lemma_errors_ok_concat(
            drop_errors(os.drop_last(), var, bs, line),
            if os.last().var == var {
                owner_drop_errors(os.last(), var, bs, line)
            } else {
                seq![]
            },
            line,
            line,
        );
    }
}

proof fn lemma_moved_errors_ok(o: DeclV, bs: Seq<DeclV>, line: nat)
    ensures
        errors_ok(moved_errors(o, bs, line), line, line),
    decreases bs.len(),
{
    if bs.len() > 0 {
        lemma_moved_errors_ok(o, bs.drop_last(), line);
        lemma_messages_shape(o, bs.last(), seq![]);
        if bs.last().label == o.label {
            lemma_single_error_ok(line, moved_message(o, bs.last()));
        }
        lemma_errors_ok_concat(
            moved_errors(o, bs.drop_last(), line),
            if bs.last().label == o.label {
                seq![(line, moved_message(o, bs.last()))]
            } else {
                seq![]
            },
            line,
            line,
        );
    }
}

/// The violations of owners passed to a call are all on its line.
pub proof fn lemma_args_moved_errors_ok(os: Seq<DeclV>, bs: Seq<DeclV>, args: Seq<Seq<char>>, line: nat)
    ensures
        errors_ok(args_moved_errors(os, bs, args, line), line, line),
    decreases args.len(),
{
    if args.len() > 0 {
        lemma_args_moved_errors_ok(os, bs, args.drop_last(), line);
        let a = seq_trim(args.last());
        let extra = if !spec_is_ident(a) {
            seq![]
        } else {
            match first_owner_named(os, a) {
                None => seq![],
                Some(o) => moved_errors(o, bs, line),
            }
        };
        if spec_is_ident(a) {
            match first_owner_named(os, a) {
                None => {},
                Some(o) => {
                    lemma_moved_errors_ok(o, bs, line);
                },
            }
        }
        lemma_errors_ok_concat(args_moved_errors(os, bs, args.drop_last(), line), extra, line, line);
    }
}

proof fn lemma_declare_all_errors(st: ScanV, vars: Seq<Seq<char>>)
    ensures
        declare_all(st, vars).errors == st.errors,
        declare_all(st, vars).depth == st.depth,
    decreases vars.len(),
{
    if vars.len() > 0 {
        lemma_declare_all_errors(st, vars.drop_last());
    }
}

/// A statement adds violations of its own line only.
pub proof fn lemma_analyze_segment_ok(st: ScanV, code: Seq<char>, line: nat)
    ensures
        appends_at(st.errors, spec_analyze_segment(st, code, line).errors, line),
        spec_analyze_segment(st, code, line).depth == st.depth,
{
    lemma_declare_all_errors(st, spec_parse_destructure(code)->0);
    lemma_appends_same(st.errors, line);
    if spec_parse_lt_let(code) is None && spec_parse_destructure(code) is None && spec_parse_let(
        code,
    ) is None && spec_parse_for(code) is None && spec_parse_lt_assign(code) is None {
        match spec_parse_drop(code) {
            Some(var) => {
                lemma_drop_errors_ok(st.owners, var, st.borrows, line);
                lemma_appends_concat(st.errors, drop_errors(st.owners, var, st.borrows, line), line);
            },
            None => {
                lemma_none_ok(line);
                let c = seq_trim(code);
                match seq_find_char(c, '(') {
                    None => {},
                    Some(lp) => {
                        match spec_extract_paren_body(c.skip(lp)) {
                            None => {},
                            Some(args) => {
                                lemma_args_moved_errors_ok(
                                    st.owners,
                                    st.borrows,
                                    spec_split_top_level_commas(args),
                                    line,
                                );
                            },
                        }
                    },
                }
                assert(errors_ok(owner_used_errors(st, code, line), line, line));
                lemma_appends_concat(st.errors, owner_used_errors(st, code, line), line);
            },
        }
    }
}

proof fn lemma_analyze_pieces_ok(st: ScanV, pieces: Seq<Seq<char>>, line: nat)
    ensures
        appends_at(st.errors, analyze_pieces(st, pieces, line).errors, line),
        analyze_pieces(st, pieces, line).depth == st.depth,
    decreases pieces.len(),
{
    if pieces.len() > 0 {
        lemma_analyze_pieces_ok(st, pieces.drop_last(), line);
        let st1 = analyze_pieces(st, pieces.drop_last(), line);
        lemma_analyze_segment_ok(st1, seq_trim(pieces.last()), line);
        lemma_appends_same(st1.errors, line);
        lemma_appends_trans(
            st.errors,
            st1.errors,
            analyze_pieces(st, pieces, line).errors,
            line,
        );
    } else {
        lemma_appends_same(st.errors, line);
    }
}

proof fn lemma_flush_ok(st: ScanV, seg: Seq<char>, line: nat)
    ensures
        appends_at(st.errors, flush_segment(st, seg, line).errors, line),
        flush_segment(st, seg, line).depth == st.depth,
{
    let s = spec_strip_comment(seq_trim(seg));
    lemma_analyze_pieces_ok(st, seq_split(s, ';'), line);
    lemma_appends_same(st.errors, line);
}

proof fn lemma_walk_ok(st: ScanV, s: Seq<char>, line: nat, j: int, seg_start: int, in_str: bool)
    ensures
        appends_at(st.errors, scan_walk(st, s, line, j, seg_start, in_str).errors, line),
    decreases s.len() - j,
{
    if j < 0 || j >= s.len() {
        lemma_flush_ok(st, s.subrange(seg_start, s.len() as int), line);
    } else {
        let ch = s[j];
        let end = scan_walk(st, s, line, j, seg_start, in_str).errors;
        if ch == '"' {
            lemma_walk_ok(st, s, line, j + 1, seg_start, !in_str);
        } else if in_str {
            lemma_walk_ok(st, s, line, j + 1, seg_start, in_str);
        } else if ch == '}' || ch == '{' {
            let st1 = flush_segment(st, s.subrange(seg_start, j), line);
            lemma_flush_ok(st, s.subrange(seg_start, j), line);
            let st2 = brace(st1, ch, line);
            if ch == '}' {
                lemma_exit_errors_ok(st1.owners, st1.borrows, st1.depth, line);
                lemma_appends_concat(
                    st1.errors,
                    exit_errors(st1.owners, st1.borrows, st1.depth, line),
                    line,
                );
            } else {
                lemma_appends_same(st1.errors, line);
            }
            lemma_appends_trans(st.errors, st1.errors, st2.errors, line);
            lemma_walk_ok(st2, s, line, j + 1, j + 1, in_str);
            lemma_appends_trans(st.errors, st2.errors, end, line);
        } else {
            lemma_walk_ok(st, s, line, j + 1, seg_start, in_str);
        }
    }
}

proof fn lemma_process_lines_ok(st: ScanV, ls: Seq<(nat, Seq<char>)>, max: nat)
    requires
        errors_ok(st.errors, 1, max),
        forall|i: int| 0 <= i < ls.len() ==> 1 <= (#[trigger] ls[i]).0 <= max,
    ensures
        errors_ok(process_lines(st, ls).errors, 1, max),
    decreases ls.len(),
{
    if ls.len() > 0 {
        lemma_process_lines_ok(st, ls.drop_last(), max);
        let st1 = process_lines(st, ls.drop_last());
        let last = ls.last();
        assert(1 <= ls[ls.len() - 1].0 <= max);
        let s = seq_trim(last.1);
        lemma_walk_ok(st1, s, last.0, 0, 0, false);
        lemma_appends_same(st1.errors, last.0);
        lemma_appends_keep(st1.errors, process_lines(st, ls).errors, last.0, 1, max);
    }
}

/// Processing lines whose numbers never decrease keeps the violations in
/// line order.
proof fn lemma_process_lines_ordered(st: ScanV, ls: Seq<(nat, Seq<char>)>, floor: nat)
    requires
        ordered_upto(st.errors, floor),
        forall|i: int, j: int| 0 <= i < j < ls.len() ==> ls[i].0 <= ls[j].0,
        forall|i: int| 0 <= i < ls.len() ==> floor <= (#[trigger] ls[i]).0,
    ensures
        ordered_upto(
            process_lines(st, ls).errors,
            if ls.len() == 0 {
                floor
            } else {
                ls.last().0
            },
        ),
    decreases ls.len(),
{
    if ls.len() > 0 {
        let init = ls.drop_last();
        lemma_process_lines_ordered(st, init, floor);
        let st1 = process_lines(st, init);
        let last = ls.last();
        let prev = if init.len() == 0 {
            floor
        } else {
            init.last().0
        };
        assert(prev <= last.0) by {
            if init.len() > 0 {
                assert(ls[init.len() - 1].0 <= ls[ls.len() - 1].0);
            }
        }
        assert(ordered_upto(st1.errors, last.0));
        lemma_walk_ok(st1, seq_trim(last.1), last.0, 0, 0, false);
        lemma_appends_same(st1.errors, last.0);
        lemma_appends_keep(st1.errors, process_lines(st, ls).errors, last.0, 0, last.0);
    }
}

/// `check_source` reports in the order of the lines: the line numbers of
/// its violations never decrease.
pub proof fn law_violations_in_line_order(src: Seq<char>)
    requires
        spec_scannable(src),
    ensures
        forall|i: int, j: int|
            0 <= i < j < spec_check_source(src).len() ==> spec_check_source(src)[i].0
                <= spec_check_source(src)[j].0,
{
    let ls = crate::text::seq_lines(src);
    lemma_join_state_lines(ls);
    let (res, pend) = join_state(ls)->0;
    let joined = spec_join_lt_lines(src)->0;
    assert forall|i: int, j: int| 0 <= i < j < joined.len() implies joined[i].0 <= joined[j].0 by {
        match pend {
            Some(p) => {
                if j < res.len() {
                    assert(joined[i] == res[i] && joined[j] == res[j]);
                } else {
                    assert(joined[i] == res[i]);
                }
            },
            None => {},
        }
    }
    assert(ordered_upto(initial_scan().errors, 0));
    lemma_process_lines_ordered(initial_scan(), joined, 0);
}

/// Every violation that `check_source` reports is on a line of the text
/// (counting from 1) and has a message of the form `[label] ... )`: it
/// names the label of the owner, and its quoted line numbers can be
/// shifted by `adjust_line_in_msg`.
pub proof fn law_reported_violations(src: Seq<char>)
    requires
        spec_scannable(src),
    ensures
        errors_ok(spec_check_source(src), 1, crate::text::seq_lines(src).len()),
        forall|i: int|
            0 <= i < spec_check_source(src).len() ==> crate::report::spec_adjustable(
                (#[trigger] spec_check_source(src)[i]).1,
            ),
{
    let ls = crate::text::seq_lines(src);
    let max = ls.len();
    lemma_join_state_lines(ls);
    let (res, pend) = join_state(ls)->0;
    let joined = spec_join_lt_lines(src)->0;
    assert forall|i: int| 0 <= i < joined.len() implies 1 <= (#[trigger] joined[i]).0 <= max by {
        match pend {
            Some(p) => {
                if i < res.len() {
                    assert(joined[i] == res[i]);
                }
            },
            None => {},
        }
    }
    assert(errors_ok(initial_scan().errors, 1, max));
    lemma_process_lines_ok(initial_scan(), joined, max);
    let errs = spec_check_source(src);
    assert forall|i: int| 0 <= i < errs.len() implies crate::report::spec_adjustable(
        (#[trigger] errs[i]).1,
    ) by {
        assert(error_ok(errs[i], 1, max));
        crate::report::lemma_adjustable_ends_with_paren(errs[i].1, 0);
    }
}

} // verus!
