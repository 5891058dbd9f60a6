//! Where the quote `(declared at line ` can occur in a violation's message:
//! only where the scanner wrote one, when the owner's label does not spell
//! it. Shifting such a message's quoted lines undoes a shift of the lines
//! the message was written with.
use vstd::prelude::*;
use crate::text::{
    lemma_find_char_from, lemma_find_from, seq_find, seq_find_char_from, seq_occurs_at,
    spec_is_ascii_digit,
};
use crate::numbers::{all_digits, lemma_decimal_digits, lemma_parse_decimal, spec_decimal};
use crate::syntax::spec_is_ident;
use crate::report::{adjust_from, lemma_mark, mark};
use crate::scanner::{drop_message, moved_message, scope_exit_message, DeclV};
use crate::unannotated::seq_contains_seq;
use crate::shift::shift_decl;

verus! {

/// The text does not spell the quote `(declared at line `.
pub open spec fn quote_free(s: Seq<char>) -> bool {
    !seq_contains_seq(s, mark())
}

pub open spec fn no_open(s: Seq<char>) -> bool {
    forall|i: int| 0 <= i < s.len() ==> s[i] != '('
}

/// `n` less `k`, never below zero.
pub open spec fn minus(n: nat, k: nat) -> nat {
    if n >= k {
        (n - k) as nat
    } else {
        0
    }
}

proof fn lemma_mark_chars()
    ensures
        mark().len() == 18,
        mark()[0] == '(',
        mark()[9] == ' ',
        forall|t: int| 1 <= t < 18 ==> mark()[t] != '(',
        forall|t: int| 0 <= t < 18 ==> mark()[t] != ')' && mark()[t] != ']' && mark()[t] != '`',
{
    lemma_mark();
    reveal_strlit("(declared at line ");
}

proof fn lemma_no_open_free(s: Seq<char>)
    requires
        no_open(s),
    ensures
        quote_free(s),
{
    lemma_mark_chars();
    if seq_contains_seq(s, mark()) {
        let i = choose|i: int| seq_occurs_at(s, mark(), i);
        assert(s.subrange(i, i + 18)[0] == s[i]);
    }
}

proof fn lemma_no_open_cat(x: Seq<char>, y: Seq<char>)
    requires
        no_open(x),
        no_open(y),
    ensures
        no_open(x + y),
{
    assert forall|i: int| 0 <= i < (x + y).len() implies (x + y)[i] != '(' by {
        if i < x.len() {
            assert((x + y)[i] == x[i]);
        } else {
            assert((x + y)[i] == y[i - x.len()]);
        }
    }
}

proof fn lemma_cat_open(x: Seq<char>, y: Seq<char>)
    requires
        no_open(x),
        quote_free(y),
    ensures
        quote_free(x + y),
{
    lemma_mark_chars();
    let s = x + y;
    if seq_contains_seq(s, mark()) {
        let i = choose|i: int| seq_occurs_at(s, mark(), i);
        if i < x.len() {
            assert(s.subrange(i, i + 18)[0] == s[i]);
            assert(s[i] == x[i]);
        } else {
            assert(s.subrange(i, i + 18) =~= y.subrange(i - x.len(), i - x.len() + 18));
            assert(seq_occurs_at(y, mark(), i - x.len()));
        }
    }
}

proof fn lemma_cat_block(x: Seq<char>, y: Seq<char>)
    requires
        quote_free(x),
        quote_free(y),
        y.len() > 0,
        forall|t: int| 0 <= t < 18 ==> mark()[t] != y[0],
    ensures
        quote_free(x + y),
{
    lemma_mark_chars();
    let s = x + y;
    if seq_contains_seq(s, mark()) {
        let i = choose|i: int| seq_occurs_at(s, mark(), i);
        if i + 18 <= x.len() {
            assert(s.subrange(i, i + 18) =~= x.subrange(i, i + 18));
            assert(seq_occurs_at(x, mark(), i));
        } else if i >= x.len() {
            assert(s.subrange(i, i + 18) =~= y.subrange(i - x.len(), i - x.len() + 18));
            assert(seq_occurs_at(y, mark(), i - x.len()));
        } else {
            assert(s.subrange(i, i + 18)[x.len() - i] == s[x.len() as int]);
            assert(s[x.len() as int] == y[0]);
        }
    }
}

/// An identifier holds none of `(`, `)` and space.
proof fn lemma_ident_plain(v: Seq<char>)
    requires
        spec_is_ident(v),
    ensures
        no_open(v),
        forall|i: int| 0 <= i < v.len() ==> v[i] != ' ' && v[i] != ')',
{
    assert forall|i: int| 0 <= i < v.len() implies v[i] != '(' && v[i] != ' ' && v[i] != ')' by {
        if i > 0 {
            assert(crate::text::is_ident_char(v[i]));
        }
    }
}

/// `drop(` followed by an identifier and `)`: the `(` does not start a
/// quote.
proof fn lemma_drop_paren(v: Seq<char>, y: Seq<char>)
    requires
        spec_is_ident(v),
        quote_free(v + y),
        y.len() > 0,
        y[0] == ')',
    ensures
        quote_free("] `drop("@ + (v + y)),
{
    lemma_mark_chars();
    lemma_ident_plain(v);
    reveal_strlit("] `drop(");
    let x = "] `drop("@;
    let r = v + y;
    let s = x + r;
    assert(x.len() == 8);
    if seq_contains_seq(s, mark()) {
        let i = choose|i: int| seq_occurs_at(s, mark(), i);
        let m = s.subrange(i, i + 18);
        if i >= 8 {
            assert(m =~= r.subrange(i - 8, i - 8 + 18));
            assert(seq_occurs_at(r, mark(), i - 8));
        } else if i < 7 {
            assert(m[0] == s[i]);
            assert(s[i] == x[i]);
        } else {
            if v.len() >= 9 {
                assert(m[9] == s[16]);
                assert(s[16] == r[8]);
                assert(r[8] == v[8]);
            } else {
                let t: int = v.len() as int + 1;
                assert(m[t] == s[7 + t]);
                assert(s[7 + t] == r[v.len() as int]);
                assert(r[v.len() as int] == y[0]);
            }
        }
    }
}

/// Without a quote, shifting leaves a text as it is.
pub proof fn lemma_adjust_free(t: Seq<char>, k: nat)
    requires
        quote_free(t),
    ensures
        adjust_from(t, k) == Some(t),
{
    lemma_find_from(t, mark(), 0);
    if seq_find(t, mark()) is Some {
        assert(seq_contains_seq(t, mark()));
    }
}

/// Shifting a text made of a quote-free prefix, one quote of `y` and a
/// rest shifts the quoted `y` and then the rest.
pub proof fn lemma_adjust_quote(a: Seq<char>, y: nat, b: Seq<char>, k: nat)
    requires
        quote_free(a),
        y <= usize::MAX,
    ensures
        adjust_from(a + mark() + spec_decimal(y) + seq![')'] + b, k) == match adjust_from(b, k) {
            Some(t) => Some(a + mark() + spec_decimal(minus(y, k)) + seq![')'] + t),
            None => None,
        },
{
    let d = spec_decimal(y);
    let out = a + mark() + d + seq![')'] + b;
    let start = a.len() as int;
    lemma_mark_chars();
    lemma_decimal_digits(y);
    lemma_parse_decimal(y);
    lemma_find_from(out, mark(), 0);
    assert(out.subrange(start, start + 18) =~= mark());
    assert(seq_occurs_at(out, mark(), start));
    assert forall|j: int| 0 <= j < start implies !seq_occurs_at(out, mark(), j) by {
        if seq_occurs_at(out, mark(), j) {
            if j + 18 <= start {
                assert(out.subrange(j, j + 18) =~= a.subrange(j, j + 18));
                assert(seq_occurs_at(a, mark(), j));
                assert(seq_contains_seq(a, mark()));
            } else {
                assert(out.subrange(j, j + 18)[start - j] == out[start]);
                assert(out[start] == '(');
            }
        }
    }
    assert(seq_find(out, mark()) == Some(start));
    let off = start + 18;
    lemma_find_char_from(out, ')', off);
    assert forall|q: int| off <= q < off + d.len() implies out[q] != ')' by {
        assert(out[q] == d[q - off]);
        assert(spec_is_ascii_digit(d[q - off]));
    }
    assert(out[off + d.len()] == ')');
    assert(seq_find_char_from(out, ')', off) == Some(off + d.len()));
    assert(out.subrange(off, off + d.len()) =~= d);
    assert(out.skip(off + d.len() + 1) =~= b);
    assert(out.take(start) =~= a);
}

proof fn lemma_tails()
    ensures
        quote_free(" still has active borrow(s)"@),
        quote_free(" has active borrow(s)"@),
{
    lemma_mark_chars();
    reveal_strlit(" still has active borrow(s)");
    reveal_strlit(" has active borrow(s)");
    let t1 = " still has active borrow(s)"@;
    let t2 = " has active borrow(s)"@;
    if seq_contains_seq(t1, mark()) {
        let i = choose|i: int| seq_occurs_at(t1, mark(), i);
        assert(t1.subrange(i, i + 18)[0] == t1[i]);
    }
    if seq_contains_seq(t2, mark()) {
        let i = choose|i: int| seq_occurs_at(t2, mark(), i);
        assert(t2.subrange(i, i + 18)[0] == t2[i]);
    }
}

/// `[label] `var` ` with a quote-free label and an identifier.
proof fn lemma_head_free(label: Seq<char>, var: Seq<char>, mid: Seq<char>)
    requires
        quote_free(label),
        spec_is_ident(var),
        no_open(mid),
        mid.len() > 0,
        mid[0] == '`',
    ensures
        quote_free("["@ + label + "] `"@ + var + mid),
{
    lemma_mark_chars();
    reveal_strlit("[");
    reveal_strlit("] `");
    lemma_ident_plain(var);
    lemma_no_open_cat(var, mid);
    lemma_no_open_free(var + mid);
    lemma_cat_open("] `"@, var + mid);
    lemma_cat_block(label, "] `"@ + (var + mid));
    lemma_cat_open("["@, label + ("] `"@ + (var + mid)));
    assert("["@ + label + "] `"@ + var + mid =~= "["@ + (label + ("] `"@ + (var + mid))));
}

/// A scope-exit message written with lines `k` larger shifts back to the
/// message written with the original lines.
pub proof fn lemma_exit_message(o: DeclV, b: DeclV, k: nat)
    requires
        quote_free(o.label),
        spec_is_ident(o.var),
        spec_is_ident(b.var),
        o.line + k <= usize::MAX,
        b.line + k <= usize::MAX,
    ensures
        adjust_from(scope_exit_message(shift_decl(o, k), shift_decl(b, k)), k) == Some(
            scope_exit_message(o, b),
        ),
{
    reveal_strlit("` (declared at line ");
    reveal_strlit("(declared at line ");
    reveal_strlit("` ");
    reveal_strlit(") dropped at end of scope but `");
    reveal_strlit(" dropped at end of scope but `");
    reveal_strlit(") still has active borrow(s)");
    reveal_strlit(" still has active borrow(s)");
    lemma_tails();
    let t1 = " still has active borrow(s)"@;
    let head = "["@ + o.label + "] `"@ + o.var + "` "@;
    lemma_head_free(o.label, o.var, "` "@);
    let mid = " dropped at end of scope but `"@ + b.var + "` "@;
    lemma_ident_plain(b.var);
    lemma_no_open_cat(" dropped at end of scope but `"@, b.var);
    lemma_no_open_cat(" dropped at end of scope but `"@ + b.var, "` "@);
    lemma_no_open_free(mid);
    let so = shift_decl(o, k);
    let sb = shift_decl(b, k);
    assert(scope_exit_message(so, sb) =~= head + mark() + spec_decimal(o.line + k) + seq![')'] + (
    mid + mark() + spec_decimal(b.line + k) + seq![')'] + t1));
    assert(scope_exit_message(o, b) =~= head + mark() + spec_decimal(o.line) + seq![')'] + (mid
        + mark() + spec_decimal(b.line) + seq![')'] + t1));
    lemma_adjust_free(t1, k);
    lemma_adjust_quote(mid, b.line + k, t1, k);
    lemma_adjust_quote(
        head,
        o.line + k,
        mid + mark() + spec_decimal(b.line + k) + seq![')'] + t1,
        k,
    );
}

/// A moved-owner message written with lines `k` larger shifts back.
pub proof fn lemma_moved_message(o: DeclV, b: DeclV, k: nat)
    requires
        quote_free(o.label),
        spec_is_ident(o.var),
        spec_is_ident(b.var),
        b.line + k <= usize::MAX,
    ensures
        adjust_from(moved_message(shift_decl(o, k), shift_decl(b, k)), k) == Some(
            moved_message(o, b),
        ),
{
    reveal_strlit("` passed to function while `");
    reveal_strlit("` (declared at line ");
    reveal_strlit("(declared at line ");
    reveal_strlit("` ");
    reveal_strlit(") has active borrow(s)");
    reveal_strlit(" has active borrow(s)");
    lemma_tails();
    let t2 = " has active borrow(s)"@;
    let mid = "` passed to function while `"@ + b.var + "` "@;
    lemma_ident_plain(b.var);
    lemma_no_open_cat("` passed to function while `"@, b.var);
    lemma_no_open_cat("` passed to function while `"@ + b.var, "` "@);
    lemma_head_free(o.label, o.var, mid);
    let head = "["@ + o.label + "] `"@ + o.var + mid;
    let so = shift_decl(o, k);
    let sb = shift_decl(b, k);
    assert(moved_message(so, sb) =~= head + mark() + spec_decimal(b.line + k) + seq![')'] + t2);
    assert(moved_message(o, b) =~= head + mark() + spec_decimal(b.line) + seq![')'] + t2);
    lemma_adjust_free(t2, k);
    lemma_adjust_quote(head, b.line + k, t2, k);
}

/// A drop message written with lines `k` larger shifts back.
pub proof fn lemma_drop_message(o: DeclV, var: Seq<char>, b: DeclV, k: nat)
    requires
        quote_free(o.label),
        spec_is_ident(var),
        spec_is_ident(b.var),
        b.line + k <= usize::MAX,
    ensures
        adjust_from(drop_message(shift_decl(o, k), var, shift_decl(b, k)), k) == Some(
            drop_message(o, var, b),
        ),
{
    lemma_mark_chars();
    reveal_strlit("[");
    reveal_strlit("] `drop(");
    reveal_strlit(")` called but `");
    reveal_strlit("` (declared at line ");
    reveal_strlit("(declared at line ");
    reveal_strlit("` ");
    reveal_strlit(") has active borrow(s)");
    reveal_strlit(" has active borrow(s)");
    lemma_tails();
    let t2 = " has active borrow(s)"@;
    let y = ")` called but `"@ + b.var + "` "@;
    lemma_ident_plain(b.var);
    lemma_ident_plain(var);
    lemma_no_open_cat(")` called but `"@, b.var);
    lemma_no_open_cat(")` called but `"@ + b.var, "` "@);
    lemma_no_open_cat(var, y);
    lemma_no_open_free(var + y);
    assert(y[0] == ')');
    lemma_drop_paren(var, y);
    lemma_cat_block(o.label, "] `drop("@ + (var + y));
    lemma_cat_open("["@, o.label + ("] `drop("@ + (var + y)));
    let head = "["@ + o.label + "] `drop("@ + var + y;
    assert(head =~= "["@ + (o.label + ("] `drop("@ + (var + y))));
    let so = shift_decl(o, k);
    let sb = shift_decl(b, k);
    assert(drop_message(so, var, sb) =~= head + mark() + spec_decimal(b.line + k) + seq![')'] + t2);
    assert(drop_message(o, var, b) =~= head + mark() + spec_decimal(b.line) + seq![')'] + t2);
    lemma_adjust_free(t2, k);
    lemma_adjust_quote(head, b.line + k, t2, k);
}

} // verus!
