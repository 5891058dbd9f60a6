//! What the command line needs besides checking: the arguments after the
//! cargo subcommand name, and the modules that a source file declares
//! (`mod name;`, whose file is found next to it) or defines inline
//! (`mod name { .. }`, whose body is checked on its own).
use vstd::prelude::*;
use crate::text::{
    find_char, lemma_find_char_from, seq_find_char, seq_trim_start, trim_start, chars_to_string, lines, push_all, seq_ends_with, seq_lines, seq_starts_with, seq_trim,
    starts_with_char, starts_with_str, ends_with_str, str_chars, trim, views, chars_eq_str,
    is_ascii_alphanumeric, spec_is_ascii_alphanumeric,
};
use crate::syntax::{is_ident_chars, lemma_keyword_len, spec_is_ident};
use crate::analyzer::{lemma_lines_len, lemma_total_len_take, total_len};

verus! {

broadcast use vstd::string::group_string_axioms;

pub open spec fn str_views(v: Seq<String>) -> Seq<Seq<char>> {
    v.map_values(|s: String| s@)
}

/// From argument `i` on: the index of the first `check`, `--help`, `-h` or
/// option, or the number of arguments.
pub open spec fn command_index(args: Seq<Seq<char>>, i: int) -> int
    decreases args.len() - i,
{
    if i < 0 || i >= args.len() {
        i
    } else {
        let a = args[i];
        if a == "check"@ || a == "--help"@ || a == "-h"@ || seq_starts_with(a, "-"@) {
            i
        } else {
            command_index(args, i + 1)
        }
    }
}

/// The arguments from the one before the command on (as `cargo lifetime ..`
/// passes the subcommand name `lifetime` first).
pub open spec fn spec_skip_cargo_subcommand(args: Seq<Seq<char>>) -> Seq<Seq<char>> {
    let i = command_index(args, 1);
    args.subrange(if i >= 1 {
        i - 1
    } else {
        0
    }, args.len() as int)
}

proof fn lemma_command_index(args: Seq<Seq<char>>, i: int)
    requires
        0 <= i,
    ensures
        i <= command_index(args, i),
        i <= args.len() ==> command_index(args, i) <= args.len(),
    decreases args.len() - i,
{
    if i < args.len() {
        lemma_command_index(args, i + 1);
    }
}

/// `check`, `--help`, `-h` or any other option.
pub open spec fn is_command_word(a: Seq<char>) -> bool {
    a == "check"@ || a == "--help"@ || a == "-h"@ || seq_starts_with(a, "-"@)
}

proof fn lemma_command_index_first(args: Seq<Seq<char>>, j: int, i: int)
    requires
        1 <= j <= i <= args.len(),
        i < args.len() ==> is_command_word(args[i]),
        forall|q: int| j <= q < i ==> !is_command_word(#[trigger] args[q]),
    ensures
        command_index(args, j) == i,
    decreases i - j,
{
    if j < i {
        assert(!is_command_word(args[j]));
        lemma_command_index_first(args, j + 1, i);
    }
}

/// The arguments from the one before the first command word (at index 1 or
/// later) on: for `cargo lifetime check` cargo passes the binary, then
/// `lifetime`, then `check`, and what remains is `lifetime check`. With no
/// command word, only the last argument remains.
pub proof fn law_skip_cargo_subcommand(args: Seq<Seq<char>>, i: int)
    requires
        1 <= i < args.len(),
        is_command_word(args[i]),
        forall|q: int| 1 <= q < i ==> !is_command_word(#[trigger] args[q]),
    ensures
        spec_skip_cargo_subcommand(args) == args.subrange(i - 1, args.len() as int),
        spec_skip_cargo_subcommand(args)[1] == args[i],
{
    lemma_command_index_first(args, 1, i);
}

/// Without a command word after the first argument, only the last argument
/// remains (none of an empty list).
pub proof fn law_skip_without_command(args: Seq<Seq<char>>)
    requires
        forall|q: int| 1 <= q < args.len() ==> !is_command_word(#[trigger] args[q]),
    ensures
        args.len() >= 1 ==> spec_skip_cargo_subcommand(args) == args.subrange(
            args.len() - 1,
            args.len() as int,
        ),
        args.len() == 0 ==> spec_skip_cargo_subcommand(args).len() == 0,
{
    if args.len() >= 1 {
        lemma_command_index_first(args, 1, args.len() as int);
    }
}

pub fn skip_cargo_subcommand(args: &[String]) -> (r: &[String])
    ensures
        str_views(r@) == spec_skip_cargo_subcommand(str_views(args@)),
{
    let ghost a = str_views(args@);
    let mut i: usize = 1;
    while i < args.len()
        invariant
            1 <= i,
            a == str_views(args@),
            command_index(a, 1) == command_index(a, i as int),
        ensures
            command_index(a, 1) == i,
        decreases args@.len() - i,
    {
        let arg = str_chars(args[i].as_str());
        assert(arg@ == a[i as int]);
        if chars_eq_str(&arg, "check") || chars_eq_str(&arg, "--help") || chars_eq_str(&arg, "-h")
            || starts_with_str(&arg, "-") {
            break;
        }
        i += 1;
    }
    proof {
        lemma_command_index(a, 1);
    }
    let k = i.saturating_sub(1);
    let r = &args[k..args.len()];
    assert(str_views(r@) =~= a.subrange(k as int, a.len() as int));
    r
}

// ------------------------------------------------------------------
// Module declarations
// ------------------------------------------------------------------

/// `char::is_alphanumeric`: the Unicode `Alphabetic` or `Numeric` property.
pub uninterp spec fn spec_is_alphanumeric(c: char) -> bool;

/// Calls std's `char::is_alphanumeric`. Trusted, not proved: the contract
/// claims that the result is the named property of `c`, and that on ASCII it
/// holds exactly of letters and digits, as std documents.
#[verifier::external_body]
fn is_alphanumeric(c: char) -> (b: bool)
    ensures
        b == spec_is_alphanumeric(c),
        spec_is_ascii_alphanumeric(c) ==> b,
        (c as u32) < 0x80 && !spec_is_ascii_alphanumeric(c) ==> !b,
{
    c.is_alphanumeric()
}

/// A character of a module name: alphanumeric or `_`; on ASCII, a letter,
/// a digit or `_`.
pub open spec fn is_name_char(c: char) -> bool {
    if (c as u32) < 0x80 {
        spec_is_ascii_alphanumeric(c) || c == '_'
    } else {
        spec_is_alphanumeric(c)
    }
}

/// The index of the first character at or after `i` that is neither
/// alphanumeric nor `_`.
pub open spec fn name_end_from(s: Seq<char>, i: int) -> int
    decreases s.len() - i,
{
    if i < 0 || i >= s.len() {
        s.len() as int
    } else if !is_name_char(s[i]) {
        i
    } else {
        name_end_from(s, i + 1)
    }
}

proof fn lemma_name_end_from(s: Seq<char>, i: int)
    requires
        0 <= i <= s.len(),
    ensures
        i <= name_end_from(s, i) <= s.len(),
    decreases s.len() - i,
{
    if i < s.len() && is_name_char(s[i]) {
        lemma_name_end_from(s, i + 1);
    }
}

fn name_end(s: &[char]) -> (e: usize)
    ensures
        e as int == name_end_from(s@, 0),
        e <= s@.len(),
{
    let mut i: usize = 0;
    while i < s.len() && (is_alphanumeric(s[i]) || s[i] == '_')
        invariant
            i <= s@.len(),
            name_end_from(s@, 0) == name_end_from(s@, i as int),
        decreases s@.len() - i,
    {
        i += 1;
    }
    i
}

/// A line with its visibility taken off: `pub`, or `pub(..)` as in
/// `pub(crate)`, `pub(super)` or `pub(in path)`, and the spaces after it.
pub open spec fn after_visibility(s: Seq<char>) -> Seq<char> {
    if seq_starts_with(s, "pub("@) {
        match seq_find_char(s, ')') {
            Some(k) => if 0 <= k < s.len() {
                seq_trim_start(s.skip(k + 1))
            } else {
                s
            },
            None => s,
        }
    } else if seq_starts_with(s, "pub "@) {
        seq_trim_start(s.skip(4))
    } else {
        s
    }
}

/// A trimmed line `mod name<after>`, possibly after a visibility: the
/// module name (an identifier) and the text after it, trimmed.
pub open spec fn mod_header(line: Seq<char>) -> Option<(Seq<char>, Seq<char>)> {
    let s = after_visibility(line);
    if !seq_starts_with(s, "mod "@) {
        None
    } else {
        let rest = s.skip(4);
        let name = rest.take(name_end_from(rest, 0));
        if name.len() == 0 || !spec_is_ident(name) {
            None
        } else {
            Some((name, seq_trim(rest.skip(name.len() as int))))
        }
    }
}

fn after_visibility_exec(s: &[char]) -> (r: &[char])
    ensures
        r@ == after_visibility(s@),
{
    proof {
        reveal_strlit("pub ");
    }
    if starts_with_str(s, "pub(") {
        match find_char(s, ')') {
            Some(k) => {
                proof {
                    lemma_find_char_from(s@, ')', 0);
                }
                let n = s.len();
                assert(k < n);
                let tail = &s[k + 1..n];
                assert(tail@ =~= s@.skip(k + 1));
                trim_start(tail)
            },
            None => s,
        }
    } else if starts_with_str(s, "pub ") {
        let tail = &s[4..s.len()];
        assert(tail@ =~= s@.skip(4));
        trim_start(tail)
    } else {
        s
    }
}

fn mod_header_exec(line: &[char]) -> (r: Option<(Vec<char>, &[char])>)
    ensures
        r matches Some((n, a)) ==> mod_header(line@) == Some((n@, a@)),
        r is None ==> mod_header(line@) is None,
{
    let s = after_visibility_exec(line);
    if !starts_with_str(s, "mod ") {
        return None;
    }
    proof {
        lemma_keyword_len();
    }
    let rest = &s[4..s.len()];
    assert(rest@ =~= s@.skip(4));
    let e = name_end(rest);
    let name = &rest[0..e];
    assert(name@ =~= rest@.take(e as int));
    if name.len() == 0 || !is_ident_chars(name) {
        return None;
    }
    let after = &rest[e..rest.len()];
    assert(after@ =~= rest@.skip(e as int));
    Some((crate::text::slice_to_vec_chars(name), trim(after)))
}

/// The names declared by `mod name;` lines (possibly `pub`), in order.
pub open spec fn declared_modules_from(ls: Seq<Seq<char>>) -> Seq<Seq<char>>
    decreases ls.len(),
{
    if ls.len() == 0 {
        seq![]
    } else {
        declared_modules_from(ls.drop_last()) + match mod_header(seq_trim(ls.last())) {
            Some((name, after)) => if after.len() > 0 && after[0] == ';' {
                seq![name]
            } else {
                seq![]
            },
            None => seq![],
        }
    }
}

pub open spec fn spec_declared_modules(src: Seq<char>) -> Seq<Seq<char>> {
    declared_modules_from(seq_lines(src))
}

/// The modules that `src` declares with `mod name;`, with or without a
/// visibility.
pub fn declared_modules(src: &str) -> (r: Vec<String>)
    ensures
        str_views(r@) == spec_declared_modules(src@),
{
    let chars = str_chars(src);
    let all = lines(&chars);
    let ghost ls = views(all@);
    let mut out: Vec<String> = Vec::new();
    let mut i: usize = 0;
    assert(ls.take(0) =~= Seq::<Seq<char>>::empty());
    assert(str_views(out@) =~= Seq::<Seq<char>>::empty());
    while i < all.len()
        invariant
            i <= all@.len(),
            ls == views(all@),
            ls == seq_lines(src@),
            str_views(out@) == declared_modules_from(ls.take(i as int)),
        decreases all@.len() - i,
    {
        assert(ls.take(i + 1).drop_last() =~= ls.take(i as int));
        assert(ls.take(i + 1).last() == all@[i as int]@);
        let s = trim(all[i].as_slice());
        let ghost before = str_views(out@);
        match mod_header_exec(s) {
            Some((name, after)) => {
                if starts_with_char(after, ';') {
                    out.push(chars_to_string(&name));
                    assert(str_views(out@) =~= before + seq![name@]);
                } else {
                    assert(str_views(out@) =~= before + Seq::<Seq<char>>::empty());
                }
            },
            None => {
                assert(str_views(out@) =~= before + Seq::<Seq<char>>::empty());
            },
        }
        i += 1;
    }
    assert(ls.take(i as int) =~= ls);
    out
}

/// The two files where module `name` declared in directory `base_dir` may
/// live: `base_dir/name.rs` and `base_dir/name/mod.rs`.
pub open spec fn spec_module_file_candidates(base_dir: Seq<char>, name: Seq<char>) -> (
    Seq<char>,
    Seq<char>,
) {
    (base_dir + seq!['/'] + name + ".rs"@, base_dir + seq!['/'] + name + "/mod.rs"@)
}

/// A module `name` declared in directory `d` lives in `d/name.rs` or in
/// `d/name/mod.rs`: the two candidates share the path `d/name`, then one
/// ends with `.rs` and the other with the directory module file `/mod.rs`.
pub proof fn law_module_file_candidates(d: Seq<char>, name: Seq<char>)
    ensures
        ({
            let (flat, nested) = spec_module_file_candidates(d, name);
            let stem = d + seq!['/'] + name;
            &&& flat.len() == stem.len() + 3
            &&& flat.take(stem.len() as int) == stem
            &&& flat.skip(stem.len() as int) == seq!['.', 'r', 's']
            &&& nested.len() == stem.len() + 7
            &&& nested.take(stem.len() as int) == stem
            &&& nested.skip(stem.len() as int) == seq!['/', 'm', 'o', 'd', '.', 'r', 's']
        }),
{
    reveal_strlit(".rs");
    reveal_strlit("/mod.rs");
    let (flat, nested) = spec_module_file_candidates(d, name);
    let stem = d + seq!['/'] + name;
    assert(flat.take(stem.len() as int) =~= stem);
    assert(flat.skip(stem.len() as int) =~= seq!['.', 'r', 's']);
    assert(nested.take(stem.len() as int) =~= stem);
    assert(nested.skip(stem.len() as int) =~= seq!['/', 'm', 'o', 'd', '.', 'r', 's']);
}

pub fn module_file_candidates(base_dir: &str, name: &str) -> (r: (String, String))
    ensures
        (r.0@, r.1@) == spec_module_file_candidates(base_dir@, name@),
{
    let mut a: Vec<char> = str_chars(base_dir);
    a.push('/');
    crate::text::push_str(&mut a, name);
    let mut b: Vec<char> = slice_to_vec_chars_of(&a);
    crate::text::push_str(&mut a, ".rs");
    crate::text::push_str(&mut b, "/mod.rs");
    (chars_to_string(&a), chars_to_string(&b))
}

fn slice_to_vec_chars_of(v: &Vec<char>) -> (r: Vec<char>)
    ensures
        r@ == v@,
{
    crate::text::slice_to_vec_chars(v.as_slice())
}


// ------------------------------------------------------------------
// Inline modules
// ------------------------------------------------------------------

/// Scanning `line` from `k` with brace depth `depth`: the depth at the end
/// of the line, or zero and `true` at the `}` that brings it to zero.
pub open spec fn brace_scan_line(line: Seq<char>, k: int, depth: int) -> (int, bool)
    decreases line.len() - k,
{
    if k < 0 || k >= line.len() {
        (depth, false)
    } else if line[k] == '{' {
        brace_scan_line(line, k + 1, depth + 1)
    } else if line[k] == '}' {
        if depth - 1 == 0 {
            (0, true)
        } else {
            brace_scan_line(line, k + 1, depth - 1)
        }
    } else {
        brace_scan_line(line, k + 1, depth)
    }
}

pub proof fn lemma_brace_scan_line(line: Seq<char>, k: int, depth: int)
    requires
        0 <= k <= line.len(),
    ensures
        depth - (line.len() - k) <= brace_scan_line(line, k, depth).0 <= depth + (line.len() - k),
    decreases line.len() - k,
{
    if k < line.len() {
        if line[k] == '{' {
            lemma_brace_scan_line(line, k + 1, depth + 1);
        } else if line[k] == '}' {
            if depth - 1 != 0 {
                lemma_brace_scan_line(line, k + 1, depth - 1);
            }
        } else {
            lemma_brace_scan_line(line, k + 1, depth);
        }
    }
}

/// From line `j` of a module starting on line `i`: the line where a `}`
/// closes the module (a close on line `i` itself does not end the search),
/// or `end` when none does.
pub open spec fn block_end(ls: Seq<Seq<char>>, i: int, j: int, depth: int, end: int) -> int
    decreases ls.len() - j,
{
    if j < 0 || j >= ls.len() {
        end
    } else {
        let (d, closed) = brace_scan_line(ls[j], 0, depth);
        let end2 = if closed {
            j
        } else {
            end
        };
        if d == 0 && end2 != i {
            end2
        } else {
            block_end(ls, i, j + 1, d, end2)
        }
    }
}

pub proof fn lemma_block_end(ls: Seq<Seq<char>>, i: int, j: int, depth: int, end: int)
    requires
        0 <= j,
    ensures
        block_end(ls, i, j, depth, end) == end || j <= block_end(ls, i, j, depth, end) < ls.len(),
    decreases ls.len() - j,
{
    if j < ls.len() {
        let (d, closed) = brace_scan_line(ls[j], 0, depth);
        let end2 = if closed {
            j
        } else {
            end
        };
        if !(d == 0 && end2 != i) {
            lemma_block_end(ls, i, j + 1, d, end2);
        }
    }
}

/// The lines, each followed by a newline.
pub open spec fn lines_text(ls: Seq<Seq<char>>) -> Seq<char>
    decreases ls.len(),
{
    if ls.len() == 0 {
        seq![]
    } else {
        lines_text(ls.drop_last()) + ls.last() + seq!['\n']
    }
}

/// The modules defined inline from line `i` on: the name and the text of
/// the lines strictly between the `mod name {` line and the closing line.
pub open spec fn inline_from(ls: Seq<Seq<char>>, i: int) -> Seq<(Seq<char>, Seq<char>)>
    decreases ls.len() - i,
{
    if i < 0 || i >= ls.len() {
        seq![]
    } else {
        let s = seq_trim(ls[i]);
        let header = if !seq_ends_with(s, ";"@) {
            mod_header(s)
        } else {
            None
        };
        match header {
            Some((name, after)) => if after.len() > 0 && after[0] == '{' {
                let end = block_end(ls, i, i, 0, i);
                proof {
                    lemma_block_end(ls, i, i, 0, i);
                }
                if end > i {
                    seq![(name, lines_text(ls.subrange(i + 1, end)))] + inline_from(ls, end + 1)
                } else {
                    inline_from(ls, i + 1)
                }
            } else {
                inline_from(ls, i + 1)
            },
            None => inline_from(ls, i + 1),
        }
    }
}

pub open spec fn spec_find_inline_modules(src: Seq<char>) -> Seq<(Seq<char>, Seq<char>)> {
    inline_from(seq_lines(src), 0)
}

/// `lines_text` writes each line and one newline.
pub proof fn lemma_lines_text_len(ls: Seq<Seq<char>>)
    ensures
        lines_text(ls).len() == total_len(ls) + ls.len(),
    decreases ls.len(),
{
    if ls.len() > 0 {
        lemma_lines_text_len(ls.drop_last());
    }
}

proof fn lemma_total_len_subrange(ls: Seq<Seq<char>>, a: int, b: int)
    requires
        0 <= a <= b <= ls.len(),
    ensures
        total_len(ls.subrange(a, b)) + total_len(ls.take(a)) == total_len(ls.take(b)),
    decreases b - a,
{
    if b > a {
        lemma_total_len_subrange(ls, a, b - 1);
        assert(ls.subrange(a, b).drop_last() =~= ls.subrange(a, b - 1));
        lemma_total_len_take(ls, b - 1);
    } else {
        assert(ls.subrange(a, b) =~= Seq::<Seq<char>>::empty());
    }
}

proof fn lemma_total_len_prefix(ls: Seq<Seq<char>>, b: int)
    requires
        0 <= b <= ls.len(),
    ensures
        total_len(ls.take(b)) <= total_len(ls),
    decreases ls.len() - b,
{
    if b < ls.len() {
        lemma_total_len_take(ls, b);
        lemma_total_len_prefix(ls, b + 1);
    } else {
        assert(ls.take(b) =~= ls);
    }
}

proof fn lemma_inline_from_len(ls: Seq<Seq<char>>, i: int)
    requires
        0 <= i,
    ensures
        forall|k: int|
            0 <= k < inline_from(ls, i).len() ==> (#[trigger] inline_from(ls, i)[k]).1.len()
                <= total_len(ls) + ls.len(),
    decreases ls.len() - i,
{
    if i < ls.len() {
        lemma_inline_from_len(ls, i + 1);
        let s = seq_trim(ls[i]);
        let header = if !seq_ends_with(s, ";"@) {
            mod_header(s)
        } else {
            None
        };
        let end = block_end(ls, i, i, 0, i);
        lemma_block_end(ls, i, i, 0, i);
        let opens = match header {
            Some((name, after)) => after.len() > 0 && after[0] == '{',
            None => false,
        };
        if opens && end > i {
            let name = match header {
                Some((n, _)) => n,
                None => seq![],
            };
            lemma_inline_from_len(ls, end + 1);
            let sub = ls.subrange(i + 1, end);
            lemma_lines_text_len(sub);
            lemma_total_len_subrange(ls, i + 1, end);
            lemma_total_len_prefix(ls, end);
            let rest = inline_from(ls, end + 1);
            let r = seq![(name, lines_text(sub))] + rest;
            assert(inline_from(ls, i) == r);
            assert forall|k: int| 0 <= k < r.len() implies (#[trigger] r[k]).1.len()
                <= total_len(ls) + ls.len() by {
                if k > 0 {
                    assert(r[k] == rest[k - 1]);
                }
            }
        } else {
            assert(inline_from(ls, i) == inline_from(ls, i + 1));
        }
    }
}

/// Each inline module body is a run of the source's lines, each with one
/// newline: it is at most one character longer than the source.
pub proof fn lemma_inline_body_len(src: Seq<char>)
    ensures
        forall|k: int|
            0 <= k < spec_find_inline_modules(src).len() ==> (
            #[trigger] spec_find_inline_modules(src)[k]).1.len() <= src.len() + 1,
{
    lemma_inline_from_len(seq_lines(src), 0);
    lemma_lines_len(src);
}

pub open spec fn module_pairs_view(v: Seq<(String, String)>) -> Seq<(Seq<char>, Seq<char>)> {
    v.map_values(|p: (String, String)| (p.0@, p.1@))
}

fn scan_braces(line: &[char], depth: i128) -> (r: (i128, bool))
    requires
        depth - line@.len() >= i128::MIN,
        depth + line@.len() <= i128::MAX,
    ensures
        (r.0 as int, r.1) == brace_scan_line(line@, 0, depth as int),
{
    let mut d = depth;
    let mut k: usize = 0;
    while k < line.len()
        invariant
            k <= line@.len(),
            depth - line@.len() >= i128::MIN,
            depth + line@.len() <= i128::MAX,
            depth - k <= d <= depth + k,
            brace_scan_line(line@, 0, depth as int) == brace_scan_line(line@, k as int, d as int),
        decreases line@.len() - k,
    {
        let ch = line[k];
        if ch == '{' {
            d += 1;
        } else if ch == '}' {
            d -= 1;
            if d == 0 {
                return (0, true);
            }
        }
        k += 1;
    }
    (d, false)
}

fn find_block_end(ls: &Vec<Vec<char>>, i: usize) -> (r: usize)
    requires
        i < ls@.len(),
        total_len(views(ls@)) <= usize::MAX + 1,
    ensures
        r as int == block_end(views(ls@), i as int, i as int, 0, i as int),
        i <= r < ls@.len(),
{
    let ghost v = views(ls@);
    proof {
        lemma_block_end(v, i as int, i as int, 0, i as int);
    }
    let mut depth: i128 = 0;
    let mut end: usize = i;
    let mut j: usize = i;
    while j < ls.len()
        invariant_except_break
            -(total_len(v.take(j as int)) as int) <= depth <= total_len(v.take(j as int)),
            block_end(v, i as int, i as int, 0, i as int) == block_end(
                v,
                i as int,
                j as int,
                depth as int,
                end as int,
            ),
        invariant
            i <= j <= ls@.len(),
            i <= end < ls@.len(),
            v == views(ls@),
            total_len(v) <= usize::MAX + 1,
        ensures
            block_end(v, i as int, i as int, 0, i as int) == end as int,
        decreases ls@.len() - j,
    {
        proof {
            lemma_total_len_take(v, j as int);
            lemma_brace_scan_line(v[j as int], 0, depth as int);
        }
        let (d, closed) = scan_braces(ls[j].as_slice(), depth);
        depth = d;
        if closed {
            end = j;
        }
        if depth == 0 && end != i {
            break;
        }
        j += 1;
    }
    end
}

fn lines_text_exec(ls: &Vec<Vec<char>>, from: usize, to: usize) -> (r: Vec<char>)
    requires
        from <= to <= ls@.len(),
    ensures
        r@ == lines_text(views(ls@).subrange(from as int, to as int)),
{
    let ghost v = views(ls@);
    let mut out: Vec<char> = Vec::new();
    let mut k = from;
    assert(v.subrange(from as int, from as int) =~= Seq::<Seq<char>>::empty());
    while k < to
        invariant
            from <= k <= to,
            to <= ls@.len(),
            v == views(ls@),
            out@ == lines_text(v.subrange(from as int, k as int)),
        decreases to - k,
    {
        assert(v.subrange(from as int, k + 1).drop_last() =~= v.subrange(from as int, k as int));
        assert(v.subrange(from as int, k + 1).last() == ls@[k as int]@);
        push_all(&mut out, ls[k].as_slice());
        out.push('\n');
        k += 1;
    }
    out
}

/// The modules that `src` defines inline (`mod name { .. }`), each with
/// the text of its body.
pub fn find_inline_modules(src: &str) -> (r: Vec<(String, String)>)
    ensures
        module_pairs_view(r@) == spec_find_inline_modules(src@),
{
    let chars = str_chars(src);
    let all = lines(&chars);
    let ghost ls = views(all@);
    proof {
        lemma_lines_len(src@);
    }
    let mut modules: Vec<(String, String)> = Vec::new();
    let mut i: usize = 0;
    assert(module_pairs_view(modules@) =~= Seq::<(Seq<char>, Seq<char>)>::empty());
    while i < all.len()
        invariant
            i <= all@.len(),
            ls == views(all@),
            ls == seq_lines(src@),
            total_len(ls) <= usize::MAX + 1,
            spec_find_inline_modules(src@) == module_pairs_view(modules@) + inline_from(ls, i as int),
        decreases all@.len() - i,
    {
        let s = trim(all[i].as_slice());
        assert(s@ == seq_trim(ls[i as int]));
        if !ends_with_str(s, ";") {
            if let Some((name, after)) = mod_header_exec(s) {
                if starts_with_char(after, '{') {
                    let end = find_block_end(&all, i);
                    if end > i {
                        let body = lines_text_exec(&all, i + 1, end);
                        let ghost before = module_pairs_view(modules@);
                        modules.push((chars_to_string(&name), chars_to_string(&body)));
                        assert(module_pairs_view(modules@) =~= before + seq![(name@, body@)]);
                        i = end;
                    }
                }
            }
        }
        i += 1;
    }
    assert(module_pairs_view(modules@) + inline_from(ls, i as int) =~= module_pairs_view(modules@));
    modules
}

} // verus!
