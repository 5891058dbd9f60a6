//! Recognisers for the statement shapes that the scanner understands:
//! `let` bindings (plain, annotated with `lt!`, destructuring), `for` loop
//! headers, assignments of annotated expressions, `drop(..)` calls, and the
//! classification of annotated expressions as owners or borrows.
use vstd::prelude::*;
use crate::text::{
    chars_eq_str, find_char, is_ascii_alphabetic, is_ascii_alphanumeric, is_ident_char,
    is_whitespace, lemma_find_char_from, lemma_trim_start_suffix, seq_ends_with, seq_find,
    seq_find_char, seq_starts_with, seq_trim, seq_trim_end, seq_trim_start, slice_to_vec_chars,
    spec_is_ascii_alphabetic, spec_is_whitespace, starts_with_char, starts_with_str, str_chars,
    trim, trim_start, views, ends_with_str, find_str, push_all, push_str, trim_end,
};

verus! {

broadcast use vstd::string::group_string_axioms;

// ------------------------------------------------------------------
// Identifiers
// ------------------------------------------------------------------

/// A Rust identifier made of ASCII letters, digits and `_`, not starting
/// with a digit.
pub open spec fn spec_is_ident(s: Seq<char>) -> bool {
    &&& s.len() > 0
    &&& (spec_is_ascii_alphabetic(s[0]) || s[0] == '_')
    &&& forall|i: int| 1 <= i < s.len() ==> is_ident_char(#[trigger] s[i])
}

pub fn is_ident_chars(s: &[char]) -> (b: bool)
    ensures
        b == spec_is_ident(s@),
{
    if s.len() == 0 {
        return false;
    }
    let first = s[0];
    if !is_ascii_alphabetic(first) && first != '_' {
        return false;
    }
    let mut i: usize = 1;
    while i < s.len()
        invariant
            1 <= i <= s@.len(),
            forall|k: int| 1 <= k < i ==> is_ident_char(#[trigger] s@[k]),
        decreases s@.len() - i,
    {
        let c = s[i];
        if !(is_ascii_alphanumeric(c) || c == '_') {
            return false;
        }
        i += 1;
    }
    true
}

/// Whether `s` is an identifier.
pub fn is_ident(s: &str) -> (b: bool)
    ensures
        b == spec_is_ident(s@),
{
    let v = str_chars(s);
    is_ident_chars(&v)
}

/// The index of the first character at or after `i` that cannot continue an
/// identifier, or the length of `s`.
pub open spec fn ident_end_from(s: Seq<char>, i: int) -> int
    decreases s.len() - i,
{
    if i < 0 || i >= s.len() {
        s.len() as int
    } else if !is_ident_char(s[i]) {
        i
    } else {
        ident_end_from(s, i + 1)
    }
}

pub proof fn lemma_ident_end_from(s: Seq<char>, i: int)
    requires
        0 <= i <= s.len(),
    ensures
        i <= ident_end_from(s, i) <= s.len(),
        forall|k: int| i <= k < ident_end_from(s, i) ==> is_ident_char(#[trigger] s[k]),
    decreases s.len() - i,
{
    if i < s.len() && is_ident_char(s[i]) {
        lemma_ident_end_from(s, i + 1);
    }
}

fn ident_end(s: &[char]) -> (e: usize)
    ensures
        e as int == ident_end_from(s@, 0),
        e <= s@.len(),
{
    let mut i: usize = 0;
    while i < s.len()
        invariant
            i <= s@.len(),
            ident_end_from(s@, 0) == ident_end_from(s@, i as int),
        decreases s@.len() - i,
    {
        let c = s[i];
        if !(is_ascii_alphanumeric(c) || c == '_') {
            return i;
        }
        i += 1;
    }
    i
}

// ------------------------------------------------------------------
// Bracket-aware scanning
// ------------------------------------------------------------------

/// Scanning `t` from `i` with `depth` open parentheses: the index of the
/// `)` that brings the depth back to zero.
pub open spec fn paren_close_from(t: Seq<char>, i: int, depth: int) -> Option<int>
    decreases t.len() - i,
{
    if i < 0 || i >= t.len() {
        None
    } else if t[i] == '(' {
        paren_close_from(t, i + 1, depth + 1)
    } else if t[i] == ')' {
        if depth - 1 == 0 {
            Some(i)
        } else {
            paren_close_from(t, i + 1, depth - 1)
        }
    } else {
        paren_close_from(t, i + 1, depth)
    }
}

pub proof fn lemma_paren_close_from(t: Seq<char>, i: int, depth: int)
    requires
        0 <= i,
    ensures
        paren_close_from(t, i, depth) matches Some(k) ==> i <= k < t.len(),
    decreases t.len() - i,
{
    if 0 <= i < t.len() {
        if t[i] == '(' {
            lemma_paren_close_from(t, i + 1, depth + 1);
        } else if t[i] == ')' {
            lemma_paren_close_from(t, i + 1, depth - 1);
        } else {
            lemma_paren_close_from(t, i + 1, depth);
        }
    }
}

/// The text between a leading `(` (after trimming) and its matching `)`.
pub open spec fn spec_extract_paren_body(s: Seq<char>) -> Option<Seq<char>> {
    let t = seq_trim(s);
    if !(t.len() > 0 && t[0] == '(') {
        None
    } else {
        match paren_close_from(t, 0, 0) {
            Some(i) => Some(t.subrange(1, i)),
            None => None,
        }
    }
}

pub fn extract_paren_body(s: &[char]) -> (r: Option<&[char]>)
    ensures
        r matches Some(b) ==> spec_extract_paren_body(s@) == Some(b@),
        r is None ==> spec_extract_paren_body(s@) is None,
{
    let t = trim(s);
    if !starts_with_char(t, '(') {
        return None;
    }
    let mut depth: usize = 0;
    let mut i: usize = 0;
    while i < t.len()
        invariant
            i <= t@.len(),
            t@ == seq_trim(s@),
            t@.len() > 0 && t@[0] == '(',
            (i == 0 && depth == 0) || (i >= 1 && depth >= 1),
            depth <= i,
            paren_close_from(t@, 0, 0) == paren_close_from(t@, i as int, depth as int),
        decreases t@.len() - i,
    {
        let ch = t[i];
        if ch == '(' {
            depth += 1;
        } else if ch == ')' {
            depth -= 1;
            if depth == 0 {
                assert(paren_close_from(t@, i as int, depth + 1) == Some(i as int));
                let body = &t[1..i];
                return Some(body);
            }
        }
        i += 1;
    }
    None
}

/// Splitting at commas that are outside string literals and outside
/// parentheses, brackets and braces: `(text, i, start of the current piece,
/// nesting depth, inside a string)`.
pub open spec fn commas_from(s: Seq<char>, i: int, start: int, depth: int, in_str: bool) -> Seq<
    Seq<char>,
>
    decreases s.len() - i,
{
    if i < 0 || i >= s.len() {
        seq![s.subrange(start, s.len() as int)]
    } else {
        let ch = s[i];
        if ch == '"' {
            commas_from(s, i + 1, start, depth, !in_str)
        } else if in_str {
            commas_from(s, i + 1, start, depth, in_str)
        } else if ch == '(' || ch == '[' || ch == '{' {
            commas_from(s, i + 1, start, depth + 1, in_str)
        } else if ch == ')' || ch == ']' || ch == '}' {
            commas_from(s, i + 1, start, depth - 1, in_str)
        } else if ch == ',' && depth == 0 {
            seq![s.subrange(start, i)] + commas_from(s, i + 1, i + 1, depth, in_str)
        } else {
            commas_from(s, i + 1, start, depth, in_str)
        }
    }
}

/// The comma-separated pieces of `s` at nesting depth zero.
pub open spec fn spec_split_top_level_commas(s: Seq<char>) -> Seq<Seq<char>> {
    commas_from(s, 0, 0, 0, false)
}

pub fn split_top_level_commas(s: &[char]) -> (parts: Vec<Vec<char>>)
    ensures
        views(parts@) == spec_split_top_level_commas(s@),
{
    let mut parts: Vec<Vec<char>> = Vec::new();
    let mut start: usize = 0;
    let mut depth: i128 = 0;
    let mut in_str = false;
    let mut i: usize = 0;
    assert(views(parts@) =~= Seq::<Seq<char>>::empty());
    while i < s.len()
        invariant
            start <= i <= s@.len(),
            -(i as int) <= depth <= i,
            i <= usize::MAX,
            spec_split_top_level_commas(s@) == views(parts@) + commas_from(
                s@,
                i as int,
                start as int,
                depth as int,
                in_str,
            ),
        decreases s@.len() - i,
    {
        let ch = s[i];
        if ch == '"' {
            in_str = !in_str;
        } else if !in_str {
            if ch == '(' || ch == '[' || ch == '{' {
                depth += 1;
            } else if ch == ')' || ch == ']' || ch == '}' {
                depth -= 1;
            } else if ch == ',' && depth == 0 {
                let ghost before = views(parts@);
                let piece = slice_to_vec_chars(&s[start..i]);
                parts.push(piece);
                assert(views(parts@) =~= before + seq![s@.subrange(start as int, i as int)]);
                start = i + 1;
                assert(spec_split_top_level_commas(s@) == views(parts@) + commas_from(
                    s@,
                    i + 1,
                    start as int,
                    depth as int,
                    in_str,
                ));
            }
        }
        i += 1;
    }
    let ghost before = views(parts@);
    parts.push(slice_to_vec_chars(&s[start..s.len()]));
    assert(views(parts@) =~= before + seq![s@.subrange(start as int, s@.len() as int)]);
    parts
}

/// The index of the last comma outside string literals and brackets.
pub open spec fn last_comma_from(s: Seq<char>, i: int, nest: int, in_str: bool, last: Option<int>) -> Option<int>
    decreases s.len() - i,
{
    if i < 0 || i >= s.len() {
        last
    } else {
        let ch = s[i];
        if ch == '"' {
            last_comma_from(s, i + 1, nest, !in_str, last)
        } else if in_str {
            last_comma_from(s, i + 1, nest, in_str, last)
        } else if ch == '(' || ch == '[' || ch == '{' {
            last_comma_from(s, i + 1, nest + 1, in_str, last)
        } else if ch == ')' || ch == ']' || ch == '}' {
            last_comma_from(s, i + 1, nest - 1, in_str, last)
        } else if ch == ',' && nest == 0 {
            last_comma_from(s, i + 1, nest, in_str, Some(i))
        } else {
            last_comma_from(s, i + 1, nest, in_str, last)
        }
    }
}

pub open spec fn spec_find_last_comma(s: Seq<char>) -> Option<int> {
    last_comma_from(s, 0, 0, false, None)
}

pub proof fn lemma_last_comma_from(s: Seq<char>, i: int, nest: int, in_str: bool, last: Option<int>)
    requires
        0 <= i,
        last matches Some(l) ==> 0 <= l < s.len(),
    ensures
        last_comma_from(s, i, nest, in_str, last) matches Some(l) ==> 0 <= l < s.len(),
    decreases s.len() - i,
{
    if 0 <= i < s.len() {
        let ch = s[i];
        if ch == '"' {
            lemma_last_comma_from(s, i + 1, nest, !in_str, last);
        } else if in_str {
            lemma_last_comma_from(s, i + 1, nest, in_str, last);
        } else if ch == '(' || ch == '[' || ch == '{' {
            lemma_last_comma_from(s, i + 1, nest + 1, in_str, last);
        } else if ch == ')' || ch == ']' || ch == '}' {
            lemma_last_comma_from(s, i + 1, nest - 1, in_str, last);
        } else if ch == ',' && nest == 0 {
            lemma_last_comma_from(s, i + 1, nest, in_str, Some(i));
        } else {
            lemma_last_comma_from(s, i + 1, nest, in_str, last);
        }
    }
}

pub fn find_last_comma(s: &[char]) -> (r: Option<usize>)
    ensures
        r matches Some(l) ==> spec_find_last_comma(s@) == Some(l as int) && l < s@.len(),
        r is None ==> spec_find_last_comma(s@) is None,
{
    let mut in_str = false;
    let mut nest: i128 = 0;
    let mut last: Option<usize> = None;
    let mut i: usize = 0;
    while i < s.len()
        invariant
            i <= s@.len(),
            i <= usize::MAX,
            -(i as int) <= nest <= i,
            last matches Some(l) ==> l < s@.len(),
            spec_find_last_comma(s@) == last_comma_from(
                s@,
                i as int,
                nest as int,
                in_str,
                match last {
                    Some(l) => Some(l as int),
                    None => None,
                },
            ),
        decreases s@.len() - i,
    {
        let ch = s[i];
        if ch == '"' {
            in_str = !in_str;
        } else if !in_str {
            if ch == '(' || ch == '[' || ch == '{' {
                nest += 1;
            } else if ch == ')' || ch == ']' || ch == '}' {
                nest -= 1;
            } else if ch == ',' && nest == 0 {
                last = Some(i);
            }
        }
        i += 1;
    }
    last
}

// ------------------------------------------------------------------
// `lt!(expr, "label")`
// ------------------------------------------------------------------

/// Scanning the body of `lt!(` from `i` with `depth` unmatched `(`: the index
/// of the `)` that closes the macro call.
pub open spec fn lt_close_from(b: Seq<char>, i: int, depth: int) -> Option<int>
    decreases b.len() - i,
{
    if i < 0 || i >= b.len() {
        None
    } else if b[i] == '(' {
        lt_close_from(b, i + 1, depth + 1)
    } else if b[i] == ')' {
        if depth == 0 {
            Some(i)
        } else {
            lt_close_from(b, i + 1, depth - 1)
        }
    } else {
        lt_close_from(b, i + 1, depth)
    }
}

pub proof fn lemma_lt_close_from(b: Seq<char>, i: int, depth: int)
    requires
        0 <= i,
    ensures
        lt_close_from(b, i, depth) matches Some(k) ==> i <= k < b.len(),
    decreases b.len() - i,
{
    if 0 <= i < b.len() {
        if b[i] == '(' {
            lemma_lt_close_from(b, i + 1, depth + 1);
        } else if b[i] == ')' {
            if depth != 0 {
                lemma_lt_close_from(b, i + 1, depth - 1);
            }
        } else {
            lemma_lt_close_from(b, i + 1, depth);
        }
    }
}

/// The expression and the label of `lt!(expr, "label")` at the start of `s`:
/// the label is the last top-level argument, a string literal.
pub open spec fn spec_extract_lt_expr_label(s: Seq<char>) -> Option<(Seq<char>, Seq<char>)> {
    if !seq_starts_with(s, "lt!("@) {
        None
    } else {
        let body_start = s.skip(4);
        match lt_close_from(body_start, 0, 0) {
            None => None,
            Some(end) => {
                let body = seq_trim(body_start.take(end));
                match spec_find_last_comma(body) {
                    None => None,
                    Some(lc) => {
                        let expr = seq_trim(body.take(lc));
                        let label_raw = seq_trim(body.skip(lc + 1));
                        if label_raw.len() < 2 || label_raw[0] != '"' || label_raw.last() != '"' {
                            None
                        } else {
                            Some((expr, label_raw.subrange(1, label_raw.len() - 1)))
                        }
                    },
                }
            },
        }
    }
}

fn lt_close(b: &[char]) -> (r: Option<usize>)
    ensures
        r matches Some(k) ==> lt_close_from(b@, 0, 0) == Some(k as int),
        r is None ==> lt_close_from(b@, 0, 0) is None,
{
    let mut depth: usize = 0;
    let mut i: usize = 0;
    while i < b.len()
        invariant
            i <= b@.len(),
            depth <= i,
            lt_close_from(b@, 0, 0) == lt_close_from(b@, i as int, depth as int),
        decreases b@.len() - i,
    {
        let ch = b[i];
        if ch == '(' {
            depth += 1;
        } else if ch == ')' {
            if depth == 0 {
                return Some(i);
            }
            depth -= 1;
        }
        i += 1;
    }
    None
}

pub fn extract_lt_expr_label(s: &[char]) -> (r: Option<(Vec<char>, Vec<char>)>)
    ensures
        r matches Some((e, l)) ==> spec_extract_lt_expr_label(s@) == Some((e@, l@)),
        r is None ==> spec_extract_lt_expr_label(s@) is None,
{
    if !starts_with_str(s, "lt!(") {
        return None;
    }
    proof {
        reveal_strlit("lt!(");
    }
    let body_start = &s[4..s.len()];
    assert(body_start@ =~= s@.skip(4));
    let end = match lt_close(body_start) {
        Some(e) => e,
        None => {
            return None;
        },
    };
    proof {
        lemma_lt_close_from(body_start@, 0, 0);
    }
    let body_slice = &body_start[0..end];
    assert(body_slice@ =~= body_start@.take(end as int));
    let body = trim(body_slice);
    let blen = body.len();
    let last_comma = match find_last_comma(body) {
        Some(l) => l,
        None => {
            return None;
        },
    };
    let expr_slice = &body[0..last_comma];
    assert(expr_slice@ =~= body@.take(last_comma as int));
    let expr = slice_to_vec_chars(trim(expr_slice));
    let label_slice = &body[last_comma + 1..blen];
    assert(label_slice@ =~= body@.skip(last_comma + 1));
    let label_raw = trim(label_slice);
    if label_raw.len() < 2 || label_raw[0] != '"' || label_raw[label_raw.len() - 1] != '"' {
        return None;
    }
    let label = slice_to_vec_chars(&label_raw[1..label_raw.len() - 1]);
    Some((expr, label))
}

/// The first `=` outside string literals that is not part of `==`, `!=`,
/// `<=` or `>=`.
pub open spec fn eq_from(s: Seq<char>, i: int, in_str: bool) -> Option<int>
    decreases s.len() - i,
{
    if i < 0 || i >= s.len() {
        None
    } else if s[i] == '"' {
        eq_from(s, i + 1, !in_str)
    } else if !in_str && s[i] == '=' {
        if i > 0 && (s[i - 1] == '!' || s[i - 1] == '<' || s[i - 1] == '>' || s[i - 1] == '=') {
            eq_from(s, i + 1, in_str)
        } else if i + 1 < s.len() && s[i + 1] == '=' {
            eq_from(s, i + 1, in_str)
        } else {
            Some(i)
        }
    } else {
        eq_from(s, i + 1, in_str)
    }
}

pub open spec fn spec_find_non_relational_eq(s: Seq<char>) -> Option<int> {
    eq_from(s, 0, false)
}

/// A position found by `eq_from` lies inside the text, at or after the start.
pub proof fn lemma_eq_from(s: Seq<char>, i: int, in_str: bool)
    requires
        0 <= i,
    ensures
        eq_from(s, i, in_str) matches Some(k) ==> i <= k < s.len(),
    decreases s.len() - i,
{
    if i < s.len() {
        if s[i] == '"' {
            lemma_eq_from(s, i + 1, !in_str);
        } else {
            lemma_eq_from(s, i + 1, in_str);
        }
    }
}

pub fn find_non_relational_eq(s: &[char]) -> (r: Option<usize>)
    ensures
        r matches Some(k) ==> spec_find_non_relational_eq(s@) == Some(k as int) && k < s@.len(),
        r is None ==> spec_find_non_relational_eq(s@) is None,
{
    let mut in_str = false;
    let mut i: usize = 0;
    while i < s.len()
        invariant
            i <= s@.len(),
            spec_find_non_relational_eq(s@) == eq_from(s@, i as int, in_str),
        decreases s@.len() - i,
    {
        let ch = s[i];
        if ch == '"' {
            in_str = !in_str;
        } else if !in_str && ch == '=' {
            let mut relational = false;
            if i > 0 {
                let prev = s[i - 1];
                if prev == '!' || prev == '<' || prev == '>' || prev == '=' {
                    relational = true;
                }
            }
            if !relational && i + 1 < s.len() && s[i + 1] == '=' {
                relational = true;
            }
            if !relational {
                return Some(i);
            }
        }
        i += 1;
    }
    None
}


// ------------------------------------------------------------------
// Statement shapes
// ------------------------------------------------------------------

/// After `let ` (and any `mut`/`ref` words): the bound name, the annotated
/// expression and its label, when the right-hand side is `lt!(expr, "label")`.
pub open spec fn lt_let_from(word: Seq<char>) -> Option<(Seq<char>, Seq<char>, Seq<char>)>
    decreases word.len(),
{
    let end = ident_end_from(word, 0);
    let token = word.take(end);
    if 0 < end <= word.len() && (token == "mut"@ || token == "ref"@) {
        proof {
            lemma_trim_start_suffix(word.skip(end));
        }
        lt_let_from(seq_trim_start(word.skip(end)))
    } else if token.len() == 0 || !spec_is_ident(token) {
        None
    } else {
        match seq_find_char(word.skip(end), '=') {
            None => None,
            Some(eq) => match spec_extract_lt_expr_label(seq_trim(word.skip(end + eq + 1))) {
                Some((e, l)) => Some((token, e, l)),
                None => None,
            },
        }
    }
}

/// `let [mut|ref ...] name ... = lt!(expr, "label")`: the name, the expression
/// and the label.
pub open spec fn spec_parse_lt_let(code: Seq<char>) -> Option<(Seq<char>, Seq<char>, Seq<char>)> {
    let c = seq_trim(code);
    if !seq_starts_with(c, "let "@) {
        None
    } else {
        lt_let_from(seq_trim_start(c.skip(4)))
    }
}

pub proof fn lemma_keyword_len()
    ensures
        "mut"@.len() == 3,
        "ref"@.len() == 3,
        "let "@.len() == 4,
        "for "@.len() == 4,
        "mut "@.len() == 4,
        "ref "@.len() == 4,
        "drop("@.len() == 5,
        "lt!("@.len() == 4,
        "mod "@.len() == 4,
{
    reveal_strlit("mut");
    reveal_strlit("ref");
    reveal_strlit("let ");
    reveal_strlit("for ");
    reveal_strlit("mut ");
    reveal_strlit("ref ");
    reveal_strlit("drop(");
    reveal_strlit("lt!(");
    reveal_strlit("mod ");
}

/// Whether `token` is one of the binding modifiers `mut` and `ref`.
fn is_binding_modifier(token: &[char]) -> (b: bool)
    ensures
        b == (token@ == "mut"@ || token@ == "ref"@),
        b ==> token@.len() == 3,
{
    proof {
        lemma_keyword_len();
    }
    chars_eq_str(token, "mut") || chars_eq_str(token, "ref")
}

pub fn parse_lt_let(code: &[char]) -> (r: Option<(Vec<char>, Vec<char>, Vec<char>)>)
    ensures
        r matches Some((v, e, l)) ==> spec_parse_lt_let(code@) == Some((v@, e@, l@)),
        r is None ==> spec_parse_lt_let(code@) is None,
{
    let c = trim(code);
    if !starts_with_str(c, "let ") {
        return None;
    }
    proof {
        lemma_keyword_len();
    }
    let rest = &c[4..c.len()];
    assert(rest@ =~= c@.skip(4));
    let mut word = trim_start(rest);
    loop
        invariant
            lt_let_from(word@) == spec_parse_lt_let(code@),
        decreases word@.len(),
    {
        let end = ident_end(word);
        let token = &word[0..end];
        assert(token@ =~= word@.take(end as int));
        if is_binding_modifier(token) {
            let tail = &word[end..word.len()];
            assert(tail@ =~= word@.skip(end as int));
            proof {
                lemma_trim_start_suffix(tail@);
            }
            word = trim_start(tail);
            continue;
        }
        if token.len() == 0 || !is_ident_chars(token) {
            return None;
        }
        let tail = &word[end..word.len()];
        assert(tail@ =~= word@.skip(end as int));
        let eq = match find_char(tail, '=') {
            Some(k) => k,
            None => {
                return None;
            },
        };
        proof {
            lemma_find_char_from(tail@, '=', 0);
        }
        let after_slice = &word[end + eq + 1..word.len()];
        assert(after_slice@ =~= word@.skip(end + eq + 1));
        let after = trim(after_slice);
        return match extract_lt_expr_label(after) {
            Some((e, l)) => Some((slice_to_vec_chars(token), e, l)),
            None => None,
        };
    }
}

/// After `let ` (and any `mut`/`ref` words): the bound name.
pub open spec fn let_from(word: Seq<char>) -> Option<Seq<char>>
    decreases word.len(),
{
    let end = ident_end_from(word, 0);
    let token = word.take(end);
    if 0 < end <= word.len() && (token == "mut"@ || token == "ref"@) {
        proof {
            lemma_trim_start_suffix(word.skip(end));
        }
        let_from(seq_trim_start(word.skip(end)))
    } else if token.len() == 0 || !spec_is_ident(token) {
        None
    } else {
        Some(token)
    }
}

/// `let [mut|ref ...] name ...`: the first bound name.
pub open spec fn spec_parse_let(code: Seq<char>) -> Option<Seq<char>> {
    let c = seq_trim(code);
    if !seq_starts_with(c, "let "@) {
        None
    } else {
        let_from(seq_trim_start(c.skip(4)))
    }
}

pub fn parse_let(code: &[char]) -> (r: Option<Vec<char>>)
    ensures
        r matches Some(v) ==> spec_parse_let(code@) == Some(v@),
        r is None ==> spec_parse_let(code@) is None,
{
    let c = trim(code);
    if !starts_with_str(c, "let ") {
        return None;
    }
    proof {
        lemma_keyword_len();
    }
    let rest = &c[4..c.len()];
    assert(rest@ =~= c@.skip(4));
    let mut word = trim_start(rest);
    loop
        invariant
            let_from(word@) == spec_parse_let(code@),
        decreases word@.len(),
    {
        let end = ident_end(word);
        let token = &word[0..end];
        assert(token@ =~= word@.take(end as int));
        if is_binding_modifier(token) {
            let tail = &word[end..word.len()];
            assert(tail@ =~= word@.skip(end as int));
            proof {
                lemma_trim_start_suffix(tail@);
            }
            word = trim_start(tail);
            continue;
        }
        if token.len() == 0 || !is_ident_chars(token) {
            return None;
        }
        return Some(slice_to_vec_chars(token));
    }
}

/// The index of the first whitespace character or `(` at or after `i`, or
/// the length of `s`.
pub open spec fn for_word_end_from(s: Seq<char>, i: int) -> int
    decreases s.len() - i,
{
    if i < 0 || i >= s.len() {
        s.len() as int
    } else if spec_is_whitespace(s[i]) || s[i] == '(' {
        i
    } else {
        for_word_end_from(s, i + 1)
    }
}

/// `for name ...`: the loop variable, when it is an identifier.
pub open spec fn spec_parse_for(code: Seq<char>) -> Option<Seq<char>> {
    let c = seq_trim(code);
    if !seq_starts_with(c, "for "@) {
        None
    } else {
        let rest = seq_trim_start(c.skip(4));
        if rest.len() == 0 {
            None
        } else {
            let next = rest.take(for_word_end_from(rest, 0));
            if spec_is_ident(next) {
                Some(next)
            } else {
                None
            }
        }
    }
}

pub fn parse_for(code: &[char]) -> (r: Option<Vec<char>>)
    ensures
        r matches Some(v) ==> spec_parse_for(code@) == Some(v@),
        r is None ==> spec_parse_for(code@) is None,
{
    let c = trim(code);
    if !starts_with_str(c, "for ") {
        return None;
    }
    proof {
        lemma_keyword_len();
    }
    let tail = &c[4..c.len()];
    assert(tail@ =~= c@.skip(4));
    let rest = trim_start(tail);
    if rest.len() == 0 {
        return None;
    }
    let mut i: usize = 0;
    while i < rest.len() && !(is_whitespace(rest[i]) || rest[i] == '(')
        invariant
            i <= rest@.len(),
            for_word_end_from(rest@, 0) == for_word_end_from(rest@, i as int),
        decreases rest@.len() - i,
    {
        i += 1;
    }
    let next = &rest[0..i];
    assert(next@ =~= rest@.take(i as int));
    if is_ident_chars(next) {
        Some(slice_to_vec_chars(next))
    } else {
        None
    }
}

/// `mut ` and `ref ` words (with surrounding whitespace) removed from the
/// front of a binding pattern.
pub open spec fn strip_binding_modifiers(rest: Seq<char>) -> Seq<char>
    decreases rest.len(),
{
    let t = seq_trim_start(rest);
    proof {
        lemma_trim_start_suffix(rest);
        lemma_keyword_len();
    }
    if seq_starts_with(t, "mut "@) {
        strip_binding_modifiers(t.skip(4))
    } else if seq_starts_with(t, "ref "@) {
        strip_binding_modifiers(t.skip(4))
    } else {
        t
    }
}

pub proof fn lemma_strip_binding_modifiers(rest: Seq<char>)
    ensures
        strip_binding_modifiers(rest).len() <= rest.len(),
    decreases rest.len(),
{
    let t = seq_trim_start(rest);
    lemma_trim_start_suffix(rest);
    lemma_keyword_len();
    if seq_starts_with(t, "mut "@) {
        lemma_strip_binding_modifiers(t.skip(4));
    } else if seq_starts_with(t, "ref "@) {
        lemma_strip_binding_modifiers(t.skip(4));
    }
}

/// The pieces (trimmed) that are identifiers, in order.
pub open spec fn ident_parts(parts: Seq<Seq<char>>) -> Seq<Seq<char>>
    decreases parts.len(),
{
    if parts.len() == 0 {
        seq![]
    } else {
        let p = seq_trim(parts.last());
        ident_parts(parts.drop_last()) + if spec_is_ident(p) {
            seq![p]
        } else {
            seq![]
        }
    }
}

pub open spec fn single_ident(s: Seq<char>) -> Seq<Seq<char>> {
    if spec_is_ident(s) {
        seq![s]
    } else {
        seq![]
    }
}

pub open spec fn nonempty_vars(v: Seq<Seq<char>>) -> Option<Seq<Seq<char>>> {
    if v.len() == 0 {
        None
    } else {
        Some(v)
    }
}

pub proof fn lemma_trim_len(s: Seq<char>)
    ensures
        seq_trim(s).len() <= s.len(),
{
    lemma_trim_start_suffix(s);
    crate::text::lemma_trim_end_prefix(seq_trim_start(s));
}

/// The names bound by a destructuring `let`: a tuple pattern `(a, b, ..)`,
/// `Some(x)`, `Ok(x)`, `Err(x)`, or a reference pattern `&x`, `&mut x`,
/// `&(..)`, `&mut (..)`.
pub open spec fn spec_parse_destructure(code: Seq<char>) -> Option<Seq<Seq<char>>>
    decreases code.len(),
{
    let c = seq_trim(code);
    if !seq_starts_with(c, "let "@) {
        None
    } else {
        let rest = strip_binding_modifiers(c.skip(4));
        if rest.len() == 0 {
            None
        } else if rest[0] == '(' {
            nonempty_vars(
                match spec_extract_paren_body(rest) {
                    Some(body) => ident_parts(spec_split_top_level_commas(body)),
                    None => seq![],
                },
            )
        } else if seq_starts_with(rest, "Some("@) || seq_starts_with(rest, "Ok("@)
            || seq_starts_with(rest, "Err("@) {
            match seq_find_char(rest, '(') {
                None => None,
                Some(ps) => nonempty_vars(
                    match spec_extract_paren_body(rest.skip(ps)) {
                        Some(b) => single_ident(seq_trim(b)),
                        None => seq![],
                    },
                ),
            }
        } else if rest[0] == '&' {
            proof {
                lemma_trim_len(code);
                lemma_keyword_len();
                lemma_strip_binding_modifiers(c.skip(4));
                lemma_trim_start_suffix(rest.skip(1));
            }
            let after_ref = seq_trim_start(rest.skip(1));
            if seq_starts_with(after_ref, "mut "@) {
                proof {
                    lemma_trim_start_suffix(after_ref.skip(4));
                }
                let after_mut = seq_trim_start(after_ref.skip(4));
                if after_mut.len() > 0 && after_mut[0] == '(' {
                    spec_parse_destructure("let "@ + after_mut)
                } else {
                    nonempty_vars(single_ident(after_mut))
                }
            } else if after_ref.len() > 0 && after_ref[0] == '(' {
                spec_parse_destructure("let "@ + after_ref)
            } else {
                nonempty_vars(single_ident(after_ref))
            }
        } else {
            None
        }
    }
}

fn collect_ident_parts(parts: &Vec<Vec<char>>) -> (vars: Vec<Vec<char>>)
    ensures
        views(vars@) == ident_parts(views(parts@)),
{
    let mut vars: Vec<Vec<char>> = Vec::new();
    let mut i: usize = 0;
    assert(views(parts@).take(0) =~= Seq::<Seq<char>>::empty());
    assert(views(vars@) =~= Seq::<Seq<char>>::empty());
    while i < parts.len()
        invariant
            i <= parts@.len(),
            views(vars@) == ident_parts(views(parts@).take(i as int)),
        decreases parts@.len() - i,
    {
        let part = trim(parts[i].as_slice());
        assert(views(parts@).take(i + 1).drop_last() =~= views(parts@).take(i as int));
        assert(views(parts@).take(i + 1).last() == parts@[i as int]@);
        if is_ident_chars(part) {
            let ghost before = views(vars@);
            vars.push(slice_to_vec_chars(part));
            assert(views(vars@) =~= before + seq![part@]);
        } else {
            assert(views(vars@) =~= views(vars@) + Seq::<Seq<char>>::empty());
        }
        i += 1;
    }
    assert(views(parts@).take(parts@.len() as int) =~= views(parts@));
    vars
}

fn single_ident_vec(s: &[char]) -> (vars: Vec<Vec<char>>)
    ensures
        views(vars@) == single_ident(s@),
{
    let mut vars: Vec<Vec<char>> = Vec::new();
    if is_ident_chars(s) {
        vars.push(slice_to_vec_chars(s));
        assert(views(vars@) =~= seq![s@]);
    } else {
        assert(views(vars@) =~= Seq::<Seq<char>>::empty());
    }
    vars
}

fn nonempty(vars: Vec<Vec<char>>) -> (r: Option<Vec<Vec<char>>>)
    ensures
        r matches Some(v) ==> nonempty_vars(views(vars@)) == Some(views(v@)),
        r is None ==> nonempty_vars(views(vars@)) is None,
{
    if vars.len() == 0 {
        None
    } else {
        Some(vars)
    }
}

/// A new `let ` statement around `pattern`.
fn let_statement(pattern: &[char]) -> (r: Vec<char>)
    ensures
        r@ == "let "@ + pattern@,
{
    let mut v = str_chars("let ");
    push_all(&mut v, pattern);
    v
}

pub fn parse_destructure(code: &[char]) -> (r: Option<Vec<Vec<char>>>)
    ensures
        r matches Some(v) ==> spec_parse_destructure(code@) == Some(views(v@)),
        r is None ==> spec_parse_destructure(code@) is None,
    decreases code@.len(),
{
    let c = trim(code);
    if !starts_with_str(c, "let ") {
        return None;
    }
    proof {
        lemma_keyword_len();
        lemma_trim_len(code@);
    }
    let tail = &c[4..c.len()];
    assert(tail@ =~= c@.skip(4));
    let mut rest: &[char] = tail;
    let mut trimmed = trim_start(rest);
    while starts_with_str(trimmed, "mut ") || starts_with_str(trimmed, "ref ")
        invariant
            trimmed@ == seq_trim_start(rest@),
            strip_binding_modifiers(rest@) == strip_binding_modifiers(c@.skip(4)),
        decreases rest@.len(),
    {
        proof {
            lemma_keyword_len();
            lemma_trim_start_suffix(rest@);
        }
        rest = &trimmed[4..trimmed.len()];
        assert(rest@ =~= trimmed@.skip(4));
        trimmed = trim_start(rest);
    }
    let rest = trimmed;
    assert(rest@ == strip_binding_modifiers(c@.skip(4)));
    if rest.len() == 0 {
        return None;
    }
    if rest[0] == '(' {
        let vars = match extract_paren_body(rest) {
            Some(body) => {
                let parts = split_top_level_commas(body);
                collect_ident_parts(&parts)
            },
            None => Vec::new(),
        };
        proof {
            if spec_extract_paren_body(rest@) is None {
                assert(views(vars@) =~= Seq::<Seq<char>>::empty());
            }
        }
        return nonempty(vars);
    } else if starts_with_str(rest, "Some(") || starts_with_str(rest, "Ok(") || starts_with_str(
        rest,
        "Err(",
    ) {
        let paren_start = match find_char(rest, '(') {
            Some(p) => p,
            None => {
                return None;
            },
        };
        proof {
            lemma_find_char_from(rest@, '(', 0);
        }
        let from_paren = &rest[paren_start..rest.len()];
        assert(from_paren@ =~= rest@.skip(paren_start as int));
        let vars = match extract_paren_body(from_paren) {
            Some(body) => single_ident_vec(trim(body)),
            None => Vec::new(),
        };
        proof {
            if spec_extract_paren_body(from_paren@) is None {
                assert(views(vars@) =~= Seq::<Seq<char>>::empty());
            }
        }
        return nonempty(vars);
    } else if rest[0] == '&' {
        proof {
            lemma_strip_binding_modifiers(c@.skip(4));
            lemma_trim_start_suffix(rest@.skip(1));
        }
        let after_amp = &rest[1..rest.len()];
        assert(after_amp@ =~= rest@.skip(1));
        let after_ref = trim_start(after_amp);
        if starts_with_str(after_ref, "mut ") {
            let after_kw = &after_ref[4..after_ref.len()];
            assert(after_kw@ =~= after_ref@.skip(4));
            proof {
                lemma_trim_start_suffix(after_kw@);
            }
            let after_mut = trim_start(after_kw);
            if starts_with_char(after_mut, '(') {
                let stmt = let_statement(after_mut);
                return parse_destructure(&stmt);
            }
            return nonempty(single_ident_vec(after_mut));
        } else if starts_with_char(after_ref, '(') {
            let stmt = let_statement(after_ref);
            return parse_destructure(&stmt);
        } else {
            return nonempty(single_ident_vec(after_ref));
        }
    }
    None
}

/// `name = lt!(expr, "label")` (not a `let`): the assigned name, the
/// expression and the label.
pub open spec fn spec_parse_lt_assign(code: Seq<char>) -> Option<(Seq<char>, Seq<char>, Seq<char>)> {
    let c = seq_trim(code);
    if seq_starts_with(c, "let "@) {
        None
    } else {
        match spec_find_non_relational_eq(c) {
            None => None,
            Some(eq) => {
                let var = seq_trim(c.take(eq));
                if !spec_is_ident(var) {
                    None
                } else {
                    match spec_extract_lt_expr_label(seq_trim(c.skip(eq + 1))) {
                        Some((e, l)) => Some((var, e, l)),
                        None => None,
                    }
                }
            },
        }
    }
}

pub fn parse_lt_assign(code: &[char]) -> (r: Option<(Vec<char>, Vec<char>, Vec<char>)>)
    ensures
        r matches Some((v, e, l)) ==> spec_parse_lt_assign(code@) == Some((v@, e@, l@)),
        r is None ==> spec_parse_lt_assign(code@) is None,
{
    let c = trim(code);
    if starts_with_str(c, "let ") {
        return None;
    }
    let eq = match find_non_relational_eq(c) {
        Some(k) => k,
        None => {
            return None;
        },
    };
    let clen = c.len();
    let lhs = &c[0..eq];
    assert(lhs@ =~= c@.take(eq as int));
    let var = trim(lhs);
    if !is_ident_chars(var) {
        return None;
    }
    let rhs = &c[eq + 1..clen];
    assert(rhs@ =~= c@.skip(eq + 1));
    let after = trim(rhs);
    match extract_lt_expr_label(after) {
        Some((e, l)) => Some((slice_to_vec_chars(var), e, l)),
        None => None,
    }
}

/// `drop(name)`: the dropped name.
pub open spec fn spec_parse_drop(code: Seq<char>) -> Option<Seq<char>> {
    let c = seq_trim(code);
    if !seq_starts_with(c, "drop("@) {
        None
    } else {
        let rest = c.skip(5);
        match seq_find_char(rest, ')') {
            None => None,
            Some(p) => {
                let var = seq_trim(rest.take(p));
                if var.len() == 0 {
                    None
                } else {
                    Some(var)
                }
            },
        }
    }
}

pub fn parse_drop(code: &[char]) -> (r: Option<Vec<char>>)
    ensures
        r matches Some(v) ==> spec_parse_drop(code@) == Some(v@),
        r is None ==> spec_parse_drop(code@) is None,
{
    let c = trim(code);
    if !starts_with_str(c, "drop(") {
        return None;
    }
    proof {
        lemma_keyword_len();
    }
    let rest = &c[5..c.len()];
    assert(rest@ =~= c@.skip(5));
    let paren = match find_char(rest, ')') {
        Some(p) => p,
        None => {
            return None;
        },
    };
    proof {
        lemma_find_char_from(rest@, ')', 0);
    }
    let inner = &rest[0..paren];
    assert(inner@ =~= rest@.take(paren as int));
    let var = trim(inner);
    if var.len() == 0 {
        return None;
    }
    Some(slice_to_vec_chars(var))
}

// ------------------------------------------------------------------
// Fixed vocabularies
// ------------------------------------------------------------------

/// Calls whose arguments are never taken as a move of an owner: printing,
/// formatting and assertion macros, panics, constructors, and `drop`.
pub open spec fn spec_is_safe_fn(name: Seq<char>) -> bool {
    ||| name == "println"@ || name == "print"@ || name == "eprintln"@ || name == "eprint"@
    ||| name == "write"@ || name == "writeln"@
    ||| name == "format"@ || name == "format_args"@
    ||| name == "assert"@ || name == "assert_eq"@ || name == "assert_ne"@
    ||| name == "debug_assert"@ || name == "debug_assert_eq"@ || name == "debug_assert_ne"@
    ||| name == "panic"@ || name == "unreachable"@ || name == "unimplemented"@ || name == "todo"@
    ||| name == "dbg"@ || name == "stringify"@ || name == "concat"@
    ||| name == "Vec::new"@ || name == "vec"@ || name == "Box::new"@ || name == "Rc::new"@
        || name == "Arc::new"@
    ||| name == "String::new"@ || name == "String::from"@ || name == "format!"@
    ||| name == "Some"@ || name == "Ok"@ || name == "Err"@ || name == "None"@
    ||| name == "std::mem::drop"@ || name == "mem::drop"@ || name == "drop"@
}

pub fn is_safe_fn(name: &[char]) -> (b: bool)
    ensures
        b == spec_is_safe_fn(name@),
{
    chars_eq_str(name, "println") || chars_eq_str(name, "print") || chars_eq_str(name, "eprintln")
        || chars_eq_str(name, "eprint") || chars_eq_str(name, "write") || chars_eq_str(
        name,
        "writeln",
    ) || chars_eq_str(name, "format") || chars_eq_str(name, "format_args") || chars_eq_str(
        name,
        "assert",
    ) || chars_eq_str(name, "assert_eq") || chars_eq_str(name, "assert_ne") || chars_eq_str(
        name,
        "debug_assert",
    ) || chars_eq_str(name, "debug_assert_eq") || chars_eq_str(name, "debug_assert_ne")
        || chars_eq_str(name, "panic") || chars_eq_str(name, "unreachable") || chars_eq_str(
        name,
        "unimplemented",
    ) || chars_eq_str(name, "todo") || chars_eq_str(name, "dbg") || chars_eq_str(
        name,
        "stringify",
    ) || chars_eq_str(name, "concat") || chars_eq_str(name, "Vec::new") || chars_eq_str(
        name,
        "vec",
    ) || chars_eq_str(name, "Box::new") || chars_eq_str(name, "Rc::new") || chars_eq_str(
        name,
        "Arc::new",
    ) || chars_eq_str(name, "String::new") || chars_eq_str(name, "String::from")
        || chars_eq_str(name, "format!") || chars_eq_str(name, "Some") || chars_eq_str(
        name,
        "Ok",
    ) || chars_eq_str(name, "Err") || chars_eq_str(name, "None") || chars_eq_str(
        name,
        "std::mem::drop",
    ) || chars_eq_str(name, "mem::drop") || chars_eq_str(name, "drop")
}

/// Keywords that can stand before `(` without being a call.
pub open spec fn spec_is_keyword(name: Seq<char>) -> bool {
    ||| name == "as"@ || name == "async"@ || name == "await"@ || name == "break"@
    ||| name == "continue"@ || name == "else"@ || name == "for"@ || name == "if"@
    ||| name == "in"@ || name == "let"@ || name == "loop"@ || name == "match"@
    ||| name == "return"@ || name == "where"@ || name == "while"@ || name == "yield"@
    ||| name == "move"@ || name == "ref"@ || name == "mut"@
}

pub fn is_keyword(name: &[char]) -> (b: bool)
    ensures
        b == spec_is_keyword(name@),
{
    chars_eq_str(name, "as") || chars_eq_str(name, "async") || chars_eq_str(name, "await")
        || chars_eq_str(name, "break") || chars_eq_str(name, "continue") || chars_eq_str(
        name,
        "else",
    ) || chars_eq_str(name, "for") || chars_eq_str(name, "if") || chars_eq_str(name, "in")
        || chars_eq_str(name, "let") || chars_eq_str(name, "loop") || chars_eq_str(
        name,
        "match",
    ) || chars_eq_str(name, "return") || chars_eq_str(name, "where") || chars_eq_str(
        name,
        "while",
    ) || chars_eq_str(name, "yield") || chars_eq_str(name, "move") || chars_eq_str(name, "ref")
        || chars_eq_str(name, "mut")
}

/// The expression forms that the README lists as borrows: references
/// (`&expr`, `&mut expr`, `&raw const expr`, `&raw mut expr`), the pointer
/// and reference accessors, and the pointer constructors of `Box`, `Rc`,
/// `Arc` and `NonNull`, also written with their `std` paths.
pub open spec fn listed_borrow_form(t: Seq<char>) -> bool {
    ||| seq_starts_with(t, "&"@)
    ||| seq_starts_with(t, "Box::into_raw("@)
    ||| seq_starts_with(t, "std::boxed::Box::into_raw("@)
    ||| seq_starts_with(t, "Rc::as_ptr("@)
    ||| seq_starts_with(t, "std::rc::Rc::as_ptr("@)
    ||| seq_starts_with(t, "Arc::as_ptr("@)
    ||| seq_starts_with(t, "std::sync::Arc::as_ptr("@)
    ||| seq_starts_with(t, "NonNull::new("@)
    ||| seq_starts_with(t, "std::ptr::NonNull::new("@)
    ||| seq_starts_with(t, "NonNull::new_unchecked("@)
    ||| seq_starts_with(t, "std::ptr::NonNull::new_unchecked("@)
    ||| seq_ends_with(t, ".as_ptr()"@)
    ||| seq_ends_with(t, ".as_mut_ptr()"@)
    ||| seq_ends_with(t, ".as_ref()"@)
    ||| seq_ends_with(t, ".as_mut()"@)
    ||| seq_ends_with(t, ".as_bytes()"@)
    ||| seq_ends_with(t, ".as_bytes_mut()"@)
    ||| seq_ends_with(t, ".as_slice()"@)
    ||| seq_ends_with(t, ".as_mut_slice()"@)
    ||| seq_ends_with(t, ".as_str()"@)
    ||| seq_ends_with(t, ".as_mut_str()"@)
    ||| seq_ends_with(t, ".as_deref()"@)
    ||| seq_ends_with(t, ".as_deref_mut()"@)
    ||| seq_ends_with(t, ".borrow()"@)
    ||| seq_ends_with(t, ".borrow_mut()"@)
}

/// `&raw ` and `&raw mut ` begin with `&`.
pub proof fn lemma_amp_prefixes(t: Seq<char>)
    ensures
        seq_starts_with(t, "&raw "@) ==> seq_starts_with(t, "&"@),
        seq_starts_with(t, "&raw mut "@) ==> seq_starts_with(t, "&"@),
{
    reveal_strlit("&");
    reveal_strlit("&raw ");
    reveal_strlit("&raw mut ");
    if seq_starts_with(t, "&raw "@) {
        assert(t.take(5)[0] == t[0]);
        assert(t.take(1) =~= "&"@);
    }
    if seq_starts_with(t, "&raw mut "@) {
        assert(t.take(9)[0] == t[0]);
        assert(t.take(1) =~= "&"@);
    }
}

/// An expression is taken as a pointer, whatever spaces surround it,
/// exactly when it has one of the forms the README lists as borrows; any
/// other expression (`vec![..]`, `Box::new(..)`, `String::from(..)`, ..)
/// is an owner.
pub proof fn law_listed_forms_are_pointers(e: Seq<char>)
    ensures
        spec_is_pointer_expr(e) == listed_borrow_form(seq_trim(e)),
{
    lemma_amp_prefixes(seq_trim(e));
}

/// The expressions that make an annotated binding a borrow rather than an
/// owner: references, raw-pointer and reference accessors, and the pointer
/// constructors of `Box`, `Rc`, `Arc` and `NonNull`.
pub open spec fn spec_is_pointer_expr(e: Seq<char>) -> bool {
    let e = seq_trim(e);
    let starts = seq_starts_with(e, "&"@) || seq_starts_with(e, "&raw "@) || seq_starts_with(
        e,
        "&raw mut "@,
    ) || seq_starts_with(e, "Box::into_raw("@) || seq_starts_with(
        e,
        "std::boxed::Box::into_raw("@,
    ) || seq_starts_with(e, "Rc::as_ptr("@) || seq_starts_with(e, "std::rc::Rc::as_ptr("@)
        || seq_starts_with(e, "Arc::as_ptr("@) || seq_starts_with(e, "std::sync::Arc::as_ptr("@)
        || seq_starts_with(e, "NonNull::new("@) || seq_starts_with(e, "std::ptr::NonNull::new("@)
        || seq_starts_with(e, "NonNull::new_unchecked("@) || seq_starts_with(
        e,
        "std::ptr::NonNull::new_unchecked("@,
    );
    let ends = seq_ends_with(e, ".as_ptr()"@) || seq_ends_with(e, ".as_mut_ptr()"@)
        || seq_ends_with(e, ".as_ref()"@) || seq_ends_with(e, ".as_mut()"@) || seq_ends_with(
        e,
        ".as_bytes()"@,
    ) || seq_ends_with(e, ".as_bytes_mut()"@) || seq_ends_with(e, ".as_slice()"@)
        || seq_ends_with(e, ".as_mut_slice()"@) || seq_ends_with(e, ".as_str()"@)
        || seq_ends_with(e, ".as_mut_str()"@) || seq_ends_with(e, ".as_deref()"@)
        || seq_ends_with(e, ".as_deref_mut()"@) || seq_ends_with(e, ".borrow()"@)
        || seq_ends_with(e, ".borrow_mut()"@);
    starts || ends
}

pub fn is_pointer_expr(e: &[char]) -> (b: bool)
    ensures
        b == spec_is_pointer_expr(e@),
{
    let e = trim(e);
    let starts = starts_with_str(e, "&") || starts_with_str(e, "&raw ") || starts_with_str(
        e,
        "&raw mut ",
    ) || starts_with_str(e, "Box::into_raw(") || starts_with_str(
        e,
        "std::boxed::Box::into_raw(",
    ) || starts_with_str(e, "Rc::as_ptr(") || starts_with_str(e, "std::rc::Rc::as_ptr(")
        || starts_with_str(e, "Arc::as_ptr(") || starts_with_str(e, "std::sync::Arc::as_ptr(")
        || starts_with_str(e, "NonNull::new(") || starts_with_str(e, "std::ptr::NonNull::new(")
        || starts_with_str(e, "NonNull::new_unchecked(") || starts_with_str(
        e,
        "std::ptr::NonNull::new_unchecked(",
    );
    let ends = ends_with_str(e, ".as_ptr()") || ends_with_str(e, ".as_mut_ptr()")
        || ends_with_str(e, ".as_ref()") || ends_with_str(e, ".as_mut()") || ends_with_str(
        e,
        ".as_bytes()",
    ) || ends_with_str(e, ".as_bytes_mut()") || ends_with_str(e, ".as_slice()")
        || ends_with_str(e, ".as_mut_slice()") || ends_with_str(e, ".as_str()")
        || ends_with_str(e, ".as_mut_str()") || ends_with_str(e, ".as_deref()")
        || ends_with_str(e, ".as_deref_mut()") || ends_with_str(e, ".borrow()")
        || ends_with_str(e, ".borrow_mut()");
    starts || ends
}

/// The text before a `//` comment, with trailing whitespace removed.
pub open spec fn spec_strip_comment(s: Seq<char>) -> Seq<char> {
    match seq_find(s, "//"@) {
        Some(pos) => seq_trim_end(s.take(pos)),
        None => s,
    }
}

pub fn strip_comment(s: &[char]) -> (r: &[char])
    ensures
        r@ == spec_strip_comment(s@),
{
    match find_str(s, "//") {
        Some(pos) => {
            proof {
                crate::text::lemma_find_from(s@, "//"@, 0);
            }
            let head = &s[0..pos];
            assert(head@ =~= s@.take(pos as int));
            let before = trim_end(head);
            if before.len() == 0 {
                assert(before@ =~= Seq::<char>::empty());
                &s[0..0]
            } else {
                before
            }
        },
        None => s,
    }
}

} // verus!
