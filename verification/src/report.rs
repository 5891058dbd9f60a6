//! Presenting violations: shifting the line numbers quoted in messages,
//! colouring messages for a terminal, and the `path:line: message` line.
use vstd::prelude::*;
use crate::text::{
    chars_to_string, find_char_from, find_str, lemma_find_char_from, lemma_find_from, push_all,
    push_str, seq_find, seq_find_char_from, seq_occurs_at, seq_starts_with, starts_with_str,
    str_chars, slice_to_vec_chars,
};
use crate::numbers::{
    all_digits, decimal, lemma_decimal_digits, lemma_parse_decimal, parse_usize, spec_decimal,
    spec_parse_usize,
};

verus! {

broadcast use vstd::string::group_string_axioms;

pub const CYAN: &'static str = "\x1b[1;36m";

pub const YELLOW: &'static str = "\x1b[1;33m";

pub const RED: &'static str = "\x1b[1;31m";

pub const GREEN: &'static str = "\x1b[1;32m";

pub const DIM: &'static str = "\x1b[2m";

pub const RESET: &'static str = "\x1b[0m";

/// The text that introduces a quoted line number in a message.
pub open spec fn mark() -> Seq<char> {
    "(declared at line "@
}

pub proof fn lemma_mark()
    ensures
        mark().len() == 18,
        mark()[0] == '(',
        forall|i: int| 0 <= i < 18 ==> mark()[i] != ')',
        forall|i: int| 1 <= i < 18 ==> mark()[i] != '(',
{
    reveal_strlit("(declared at line ");
}

/// Every quoted line number `(declared at line N)` in `rest` with `n`
/// subtracted (never below zero); a number that does not parse counts as 1.
/// `None` when a quote is not closed by `)`, where the text cannot be
/// taken apart.
pub open spec fn adjust_from(rest: Seq<char>, n: nat) -> Option<Seq<char>>
    decreases rest.len(),
{
    match seq_find(rest, mark()) {
        None => Some(rest),
        Some(start) => {
            let off = start + mark().len();
            match seq_find_char_from(rest, ')', off) {
                None => None,
                Some(end) => {
                    proof {
                        lemma_find_char_from(rest, ')', off);
                        lemma_find_from(rest, mark(), 0);
                    }
                    let raw: nat = match spec_parse_usize(rest.subrange(off, end)) {
                        Some(v) => v,
                        None => 1,
                    };
                    let adj: nat = if raw >= n {
                        (raw - n) as nat
                    } else {
                        0
                    };
                    match adjust_from(rest.skip(end + 1), n) {
                        None => None,
                        Some(t) => Some(
                            rest.take(start) + mark() + spec_decimal(adj) + seq![')'] + t,
                        ),
                    }
                },
            }
        },
    }
}

/// Whether every quoted line number in `msg` is closed by `)`.
pub open spec fn spec_adjustable(msg: Seq<char>) -> bool {
    adjust_from(msg, 0) is Some
}

pub proof fn lemma_adjust_some_any(rest: Seq<char>, n: nat, m: nat)
    ensures
        (adjust_from(rest, n) is Some) == (adjust_from(rest, m) is Some),
    decreases rest.len(),
{
    match seq_find(rest, mark()) {
        None => {},
        Some(start) => {
            let off = start + mark().len();
            match seq_find_char_from(rest, ')', off) {
                None => {},
                Some(end) => {
                    lemma_find_char_from(rest, ')', off);
                    lemma_find_from(rest, mark(), 0);
                    lemma_adjust_some_any(rest.skip(end + 1), n, m);
                },
            }
        },
    }
}

/// A message that ends with `)` can be taken apart.
pub proof fn lemma_adjustable_ends_with_paren(msg: Seq<char>, n: nat)
    requires
        msg.len() > 0,
        msg.last() == ')',
    ensures
        adjust_from(msg, n) is Some,
    decreases msg.len(),
{
    match seq_find(msg, mark()) {
        None => {},
        Some(start) => {
            lemma_find_from(msg, mark(), 0);
            lemma_mark();
            let off = start + mark().len();
            assert(msg.subrange(start, start + 18) == mark());
            if msg.len() - 1 < off {
                assert(msg.subrange(start, start + 18)[msg.len() - 1 - start] == msg[msg.len() - 1]);
                assert(false);
            }
            lemma_find_char_from(msg, ')', off);
            match seq_find_char_from(msg, ')', off) {
                None => {
                    assert(msg[msg.len() - 1] == ')');
                },
                Some(end) => {
                    let tail = msg.skip(end + 1);
                    if tail.len() > 0 {
                        assert(tail.last() == msg.last());
                        lemma_adjustable_ends_with_paren(tail, n);
                    }
                },
            }
        },
    }
}

/// Each quoted line number is written as `usize::to_string` writes it and
/// closed by `)`.
pub open spec fn canonical_marks(rest: Seq<char>) -> bool
    decreases rest.len(),
{
    match seq_find(rest, mark()) {
        None => true,
        Some(start) => {
            let off = start + mark().len();
            match seq_find_char_from(rest, ')', off) {
                None => false,
                Some(end) => {
                    proof {
                        lemma_find_char_from(rest, ')', off);
                        lemma_find_from(rest, mark(), 0);
                    }
                    &&& spec_parse_usize(rest.subrange(off, end)) matches Some(v)
                    &&& spec_decimal(v) == rest.subrange(off, end)
                    &&& canonical_marks(rest.skip(end + 1))
                },
            }
        },
    }
}

/// Shifting by zero leaves a message whose quoted numbers are written
/// canonically unchanged.
pub proof fn law_adjust_by_zero(msg: Seq<char>)
    requires
        canonical_marks(msg),
    ensures
        adjust_from(msg, 0) == Some(msg),
    decreases msg.len(),
{
    match seq_find(msg, mark()) {
        None => {},
        Some(start) => {
            let off = start + mark().len();
            match seq_find_char_from(msg, ')', off) {
                None => {},
                Some(end) => {
                    lemma_find_char_from(msg, ')', off);
                    lemma_find_from(msg, mark(), 0);
                    law_adjust_by_zero(msg.skip(end + 1));
                    let v = spec_parse_usize(msg.subrange(off, end))->0;
                    assert(msg.subrange(start, off) == mark());
                    assert(msg =~= msg.take(start) + msg.subrange(start, off) + msg.subrange(
                        off,
                        end,
                    ) + seq![')'] + msg.skip(end + 1));
                },
            }
        },
    }
}

/// In a message rebuilt from the text before its first quote, the quote's
/// opening, a run of digits, `)` and any rest, the first quote is where it
/// was, and the digits run up to that `)`.
proof fn lemma_find_rebuilt(msg: Seq<char>, start: int, d: Seq<char>, t: Seq<char>)
    requires
        seq_find(msg, mark()) == Some(start),
        all_digits(d),
    ensures
        seq_find(msg.take(start) + mark() + d + seq![')'] + t, mark()) == Some(start),
        seq_find_char_from(msg.take(start) + mark() + d + seq![')'] + t, ')', start + 18) == Some(
            start + 18 + d.len(),
        ),
{
    let out = msg.take(start) + mark() + d + seq![')'] + t;
    lemma_mark();
    lemma_find_from(msg, mark(), 0);
    lemma_find_from(out, mark(), 0);
    assert(out.subrange(start, start + 18) =~= mark());
    assert(seq_occurs_at(out, mark(), start));
    assert forall|j: int| 0 <= j < start implies !seq_occurs_at(out, mark(), j) by {
        if seq_occurs_at(out, mark(), j) {
            if j + 18 <= start {
                assert(out.subrange(j, j + 18) =~= msg.subrange(j, j + 18));
                assert(seq_occurs_at(msg, mark(), j));
            } else {
                assert(out.subrange(j, j + 18)[start - j] == out[start]);
                assert(out[start] == '(');
            }
        }
    }
    let off = start + 18;
    lemma_find_char_from(out, ')', off);
    assert forall|k: int| off <= k < off + d.len() implies out[k] != ')' by {
        assert(out[k] == d[k - off]);
        assert(crate::text::spec_is_ascii_digit(d[k - off]));
    }
    assert(out[off + d.len()] == ')');
}

/// Shifting the quoted line numbers by `n` and then by `m` shifts them by
/// `n + m`.
pub proof fn law_adjust_twice(msg: Seq<char>, n: nat, m: nat)
    requires
        spec_adjustable(msg),
    ensures
        adjust_from(adjust_from(msg, n)->0, m) == adjust_from(msg, n + m),
    decreases msg.len(),
{
    lemma_adjust_some_any(msg, 0, n);
    lemma_adjust_some_any(msg, 0, n + m);
    match seq_find(msg, mark()) {
        None => {},
        Some(start) => {
            let off = start + mark().len();
            match seq_find_char_from(msg, ')', off) {
                None => {},
                Some(end) => {
                    lemma_find_char_from(msg, ')', off);
                    lemma_find_from(msg, mark(), 0);
                    lemma_mark();
                    let rest = msg.skip(end + 1);
                    lemma_adjust_some_any(rest, n, 0);
                    law_adjust_twice(rest, n, m);
                    let raw: nat = match spec_parse_usize(msg.subrange(off, end)) {
                        Some(v) => v,
                        None => 1,
                    };
                    let adj: nat = if raw >= n {
                        (raw - n) as nat
                    } else {
                        0
                    };
                    let t = adjust_from(rest, n)->0;
                    let d = spec_decimal(adj);
                    let out = msg.take(start) + mark() + d + seq![')'] + t;
                    assert(adjust_from(msg, n) == Some(out));
                    lemma_decimal_digits(adj);
                    lemma_parse_decimal(adj);
                    lemma_find_rebuilt(msg, start, d, t);
                    assert(out.subrange(off, off + d.len()) =~= d);
                    assert(out.skip(off + d.len() + 1) =~= t);
                    assert(out.take(start) =~= msg.take(start));
                },
            }
        },
    }
}

/// Rendering a line number and reading it back gives the number: a quote
/// `(declared at line N)` written by the scanner is canonical.
pub proof fn law_decimal_roundtrip(n: nat)
    requires
        n <= usize::MAX,
    ensures
        spec_parse_usize(spec_decimal(n)) == Some(n),
{
    lemma_parse_decimal(n);
}

/// Subtracts `n` from every line number quoted as `(declared at line N)`.
pub fn adjust_line_in_msg(msg: &str, n: usize) -> (r: String)
    requires
        spec_adjustable(msg@),
    ensures
        Some(r@) == adjust_from(msg@, n as nat),
{
    proof {
        lemma_adjust_some_any(msg@, 0, n as nat);
    }
    let m = str_chars(msg);
    let marker = str_chars("(declared at line ");
    proof {
        lemma_mark();
    }
    let mut out: Vec<char> = Vec::new();
    let mut pos: usize = 0;
    assert(m@.skip(0) =~= m@);
    loop
        invariant
            pos <= m@.len(),
            m@ == msg@,
            mark().len() == 18,
            marker@ == mark(),
            adjust_from(m@.skip(pos as int), n as nat) is Some,
            adjust_from(m@, n as nat) == Some(out@ + adjust_from(m@.skip(pos as int), n as nat)->0),
        decreases m@.len() - pos,
    {
        let rest = &m[pos..m.len()];
        assert(rest@ =~= m@.skip(pos as int));
        match find_str(rest, "(declared at line ") {
            None => {
                push_all(&mut out, rest);
                return chars_to_string(&out);
            },
            Some(start) => {
                proof {
                    lemma_find_from(rest@, mark(), 0);
                }
                let off = start + 18;
                let end = match find_char_from(rest, ')', off) {
                    Some(e) => e,
                    None => {
                        return chars_to_string(&out);
                    },
                };
                proof {
                    lemma_find_char_from(rest@, ')', off as int);
                }
                let head = &rest[0..start];
                assert(head@ =~= rest@.take(start as int));
                push_all(&mut out, head);
                push_all(&mut out, marker.as_slice());
                let digits = &rest[off..end];
                let raw: usize = match parse_usize(digits) {
                    Some(v) => v,
                    None => 1,
                };
                let adj = raw.saturating_sub(n);
                let num = decimal(adj);
                push_all(&mut out, num.as_slice());
                out.push(')');
                assert(rest@.skip(end + 1) =~= m@.skip(pos + end + 1));
                pos = pos + end + 1;
            },
        }
    }
}

/// Whether [`adjust_line_in_msg`] can take `msg` apart.
pub fn adjustable(msg: &str) -> (b: bool)
    ensures
        b == spec_adjustable(msg@),
{
    let m = str_chars(msg);
    proof {
        lemma_mark();
    }
    let mut pos: usize = 0;
    assert(m@.skip(0) =~= m@);
    loop
        invariant
            pos <= m@.len(),
            spec_adjustable(msg@) == (adjust_from(m@.skip(pos as int), 0) is Some),
            m@ == msg@,
            mark().len() == 18,
        decreases m@.len() - pos,
    {
        let rest = &m[pos..m.len()];
        assert(rest@ =~= m@.skip(pos as int));
        match find_str(rest, "(declared at line ") {
            None => {
                return true;
            },
            Some(start) => {
                proof {
                    lemma_find_from(rest@, mark(), 0);
                }
                let off = start + 18;
                let end = match find_char_from(rest, ')', off) {
                    Some(e) => e,
                    None => {
                        return false;
                    },
                };
                proof {
                    lemma_find_char_from(rest@, ')', off as int);
                    lemma_adjust_some_any(rest@, 0, 0);
                }
                assert(rest@.skip(end + 1) =~= m@.skip(pos + end + 1));
                pos = pos + end + 1;
            },
        }
    }
}

/// `msg` with each `[..]` in yellow, each `` `..` `` in cyan (the backticks
/// kept), and each `(declared at line ..)` dimmed.
pub open spec fn colorize_from(m: Seq<char>, i: int) -> Seq<char>
    decreases m.len() - i,
{
    if i < 0 || i >= m.len() {
        seq![]
    } else if m[i] == '[' && seq_find_char_from(m, ']', i) is Some {
        let e = seq_find_char_from(m, ']', i)->0;
        proof {
            lemma_find_char_from(m, ']', i);
        }
        YELLOW@ + m.subrange(i, e + 1) + RESET@ + colorize_from(m, e + 1)
    } else if m[i] == '`' && seq_find_char_from(m, '`', i + 1) is Some {
        let e = seq_find_char_from(m, '`', i + 1)->0;
        proof {
            lemma_find_char_from(m, '`', i + 1);
        }
        seq!['`'] + CYAN@ + m.subrange(i + 1, e) + RESET@ + seq!['`'] + colorize_from(m, e + 1)
    } else if seq_starts_with(m.skip(i), mark()) && seq_find_char_from(m, ')', i) is Some {
        let e = seq_find_char_from(m, ')', i)->0;
        proof {
            lemma_find_char_from(m, ')', i);
        }
        DIM@ + m.subrange(i, e + 1) + RESET@ + colorize_from(m, e + 1)
    } else {
        seq![m[i]] + colorize_from(m, i + 1)
    }
}

pub open spec fn spec_colorize(m: Seq<char>) -> Seq<char> {
    colorize_from(m, 0)
}

#[verifier::spinoff_prover]
#[verifier::rlimit(40)]
pub fn colorize(msg: &str) -> (r: String)
    ensures
        r@ == spec_colorize(msg@),
{
    let m = str_chars(msg);
    let mut out: Vec<char> = Vec::new();
    let mut i: usize = 0;
    while i < m.len()
        invariant
            i <= m@.len(),
            spec_colorize(m@) == out@ + colorize_from(m@, i as int),
        decreases m@.len() - i,
    {
        if m[i] == '[' {
            if let Some(e) = find_char_from(&m, ']', i) {
                proof {
                    lemma_find_char_from(m@, ']', i as int);
                }
                push_str(&mut out, YELLOW);
                let part = &m[i..e + 1];
                push_all(&mut out, part);
                push_str(&mut out, RESET);
                i = e + 1;
                continue;
            }
        }
        if m[i] == '`' {
            if let Some(e) = find_char_from(&m, '`', i + 1) {
                proof {
                    lemma_find_char_from(m@, '`', i + 1);
                }
                out.push('`');
                push_str(&mut out, CYAN);
                let part = &m[i + 1..e];
                push_all(&mut out, part);
                push_str(&mut out, RESET);
                out.push('`');
                i = e + 1;
                continue;
            }
        }
        let tail = &m[i..m.len()];
        assert(tail@ =~= m@.skip(i as int));
        if starts_with_str(tail, "(declared at line ") {
            if let Some(e) = find_char_from(&m, ')', i) {
                proof {
                    lemma_find_char_from(m@, ')', i as int);
                }
                push_str(&mut out, DIM);
                let part = &m[i..e + 1];
                push_all(&mut out, part);
                push_str(&mut out, RESET);
                i = e + 1;
                continue;
            }
        }
        out.push(m[i]);
        i += 1;
    }
    chars_to_string(&out)
}

/// `s` with its colour codes taken out: each escape character up to and
/// including the next `m`.
pub open spec fn strip_codes(s: Seq<char>) -> Seq<char>
    decreases s.len(),
{
    if s.len() == 0 {
        seq![]
    } else if s[0] == '\x1b' {
        match seq_find_char_from(s, 'm', 0) {
            Some(k) => {
                proof {
                    lemma_find_char_from(s, 'm', 0);
                }
                strip_codes(s.skip(k + 1))
            },
            None => seq![],
        }
    } else {
        seq![s[0]] + strip_codes(s.skip(1))
    }
}

pub proof fn lemma_strip_plain(a: Seq<char>, b: Seq<char>)
    requires
        !a.contains('\x1b'),
    ensures
        strip_codes(a + b) == a + strip_codes(b),
    decreases a.len(),
{
    if a.len() == 0 {
        assert(a + b =~= b);
    } else {
        assert((a + b)[0] == a[0]);
        assert((a + b).skip(1) =~= a.skip(1) + b);
        assert(!a.skip(1).contains('\x1b')) by {
            if a.skip(1).contains('\x1b') {
                let j = choose|j: int| 0 <= j < a.skip(1).len() && a.skip(1)[j] == '\x1b';
                assert(a[j + 1] == '\x1b');
            }
        }
        lemma_strip_plain(a.skip(1), b);
        assert(seq![a[0]] + (a.skip(1) + strip_codes(b)) =~= a + strip_codes(b));
    }
}

/// A colour code: the escape character, then no `m` until the last
/// character, which is `m`.
pub open spec fn is_code(c: Seq<char>) -> bool {
    &&& c.len() > 0
    &&& c[0] == '\x1b'
    &&& c.last() == 'm'
    &&& forall|j: int| 0 <= j < c.len() - 1 ==> c[j] != 'm'
}

pub proof fn lemma_codes()
    ensures
        is_code(YELLOW@),
        is_code(CYAN@),
        is_code(DIM@),
        is_code(RESET@),
        is_code(RED@),
        is_code(GREEN@),
{
    reveal_strlit("\x1b[1;31m");
    reveal_strlit("\x1b[1;32m");
    reveal_strlit("\x1b[1;33m");
    reveal_strlit("\x1b[1;36m");
    reveal_strlit("\x1b[2m");
    reveal_strlit("\x1b[0m");
}

pub proof fn lemma_strip_code(c: Seq<char>, b: Seq<char>)
    requires
        is_code(c),
    ensures
        strip_codes(c + b) == strip_codes(b),
{
    let s = c + b;
    let last = c.len() - 1;
    lemma_find_char_from(s, 'm', 0);
    assert(s[0] == c[0]);
    assert(s[last] == c[last]);
    assert forall|j: int| 0 <= j < last implies s[j] != 'm' by {
        assert(s[j] == c[j]);
    }
    assert(seq_find_char_from(s, 'm', 0) == Some(last));
    assert(s.skip(last + 1) =~= b);
}

proof fn lemma_colorize_from_strip(m: Seq<char>, i: int)
    requires
        0 <= i <= m.len(),
        !m.contains('\x1b'),
    ensures
        strip_codes(colorize_from(m, i)) == m.skip(i),
    decreases m.len() - i,
{
    lemma_codes();
    if i < m.len() {
        if m[i] == '[' && seq_find_char_from(m, ']', i) is Some {
            let e = seq_find_char_from(m, ']', i)->0;
            lemma_find_char_from(m, ']', i);
            lemma_colorize_from_strip(m, e + 1);
            let part = m.subrange(i, e + 1);
            let rest = colorize_from(m, e + 1);
            assert(!part.contains('\x1b')) by {
                if part.contains('\x1b') {
                    let j = choose|j: int| 0 <= j < part.len() && part[j] == '\x1b';
                    assert(m[i + j] == '\x1b');
                }
            }
            assert(YELLOW@ + part + RESET@ + rest =~= YELLOW@ + (part + (RESET@ + rest)));
            lemma_strip_code(YELLOW@, part + (RESET@ + rest));
            lemma_strip_plain(part, RESET@ + rest);
            lemma_strip_code(RESET@, rest);
            assert(part + m.skip(e + 1) =~= m.skip(i));
        } else if m[i] == '`' && seq_find_char_from(m, '`', i + 1) is Some {
            let e = seq_find_char_from(m, '`', i + 1)->0;
            lemma_find_char_from(m, '`', i + 1);
            lemma_colorize_from_strip(m, e + 1);
            let part = m.subrange(i + 1, e);
            let rest = colorize_from(m, e + 1);
            assert(!part.contains('\x1b')) by {
                if part.contains('\x1b') {
                    let j = choose|j: int| 0 <= j < part.len() && part[j] == '\x1b';
                    assert(m[i + 1 + j] == '\x1b');
                }
            }
            let tick = seq!['`'];
            assert(tick + CYAN@ + part + RESET@ + tick + rest =~= tick + (CYAN@ + (part + (RESET@ + (
            tick + rest)))));
            lemma_strip_plain(tick, CYAN@ + (part + (RESET@ + (tick + rest))));
            lemma_strip_code(CYAN@, part + (RESET@ + (tick + rest)));
            lemma_strip_plain(part, RESET@ + (tick + rest));
            lemma_strip_code(RESET@, tick + rest);
            lemma_strip_plain(tick, rest);
            assert(tick + (part + (tick + m.skip(e + 1))) =~= m.skip(i));
        } else if seq_starts_with(m.skip(i), mark()) && seq_find_char_from(m, ')', i) is Some {
            let e = seq_find_char_from(m, ')', i)->0;
            lemma_find_char_from(m, ')', i);
            lemma_colorize_from_strip(m, e + 1);
            let part = m.subrange(i, e + 1);
            let rest = colorize_from(m, e + 1);
            assert(!part.contains('\x1b')) by {
                if part.contains('\x1b') {
                    let j = choose|j: int| 0 <= j < part.len() && part[j] == '\x1b';
                    assert(m[i + j] == '\x1b');
                }
            }
            assert(DIM@ + part + RESET@ + rest =~= DIM@ + (part + (RESET@ + rest)));
            lemma_strip_code(DIM@, part + (RESET@ + rest));
            lemma_strip_plain(part, RESET@ + rest);
            lemma_strip_code(RESET@, rest);
            assert(part + m.skip(e + 1) =~= m.skip(i));
        } else {
            lemma_colorize_from_strip(m, i + 1);
            assert(m[i] != '\x1b');
            assert(!seq![m[i]].contains('\x1b')) by {
                if seq![m[i]].contains('\x1b') {
                    let j = choose|j: int| 0 <= j < 1 && seq![m[i]][j] == '\x1b';
                    assert(seq![m[i]][j] == m[i]);
                }
            }
            lemma_strip_plain(seq![m[i]], colorize_from(m, i + 1));
            assert(seq![m[i]] + m.skip(i + 1) =~= m.skip(i));
        }
    } else {
        assert(m.skip(i) =~= Seq::<char>::empty());
    }
}

/// Colouring only adds colour codes: taking them out again gives back the
/// message, when the message has no escape character of its own.
pub proof fn law_colorize_only_adds_codes(m: Seq<char>)
    requires
        !m.contains('\x1b'),
    ensures
        strip_codes(spec_colorize(m)) == m,
{
    lemma_colorize_from_strip(m, 0);
    assert(m.skip(0) =~= m);
}

/// The line printed for a violation: `path:line:` in cyan, then the
/// coloured message.
pub open spec fn spec_error_line(path: Seq<char>, line: nat, msg: Seq<char>) -> Seq<char> {
    CYAN@ + path + seq![':'] + spec_decimal(line) + seq![':'] + RESET@ + seq![' '] + spec_colorize(msg)
}

pub fn format_error_line(path: &str, line: usize, msg: &str) -> (r: String)
    ensures
        r@ == spec_error_line(path@, line as nat, msg@),
{
    let mut out: Vec<char> = Vec::new();
    push_str(&mut out, CYAN);
    push_str(&mut out, path);
    out.push(':');
    push_all(&mut out, decimal(line).as_slice());
    out.push(':');
    push_str(&mut out, RESET);
    out.push(' ');
    let colored = colorize(msg);
    push_str(&mut out, colored.as_str());
    assert(out@ =~= spec_error_line(path@, line as nat, msg@));
    chars_to_string(&out)
}


/// The lines that report the violations `errors` found in file `path`, in
/// order, one per violation.
pub fn file_error_lines(path: &str, errors: &[(usize, String)]) -> (r: Vec<String>)
    ensures
        r@.len() == errors@.len(),
        forall|k: int|
            0 <= k < errors@.len() ==> (#[trigger] r@[k])@ == spec_error_line(
                path@,
                errors@[k].0 as nat,
                errors@[k].1@,
            ),
{
    let mut out: Vec<String> = Vec::new();
    let mut i: usize = 0;
    while i < errors.len()
        invariant
            i <= errors@.len(),
            out@.len() == i,
            forall|k: int|
                0 <= k < i ==> (#[trigger] out@[k])@ == spec_error_line(
                    path@,
                    errors@[k].0 as nat,
                    errors@[k].1@,
                ),
        decreases errors@.len() - i,
    {
        out.push(format_error_line(path, errors[i].0, errors[i].1.as_str()));
        i += 1;
    }
    out
}

} // verus!
