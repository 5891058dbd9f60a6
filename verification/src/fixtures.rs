//! The test runner's verdict on a fixture: the body is wrapped in a `main`
//! function after a one-line `lt!` macro, checked, and the reported lines
//! are mapped back to the body's own lines. The suite's report lists each
//! fixture's verdict and violations, then the totals.
use vstd::prelude::*;
use crate::text::{
    chars_to_string, lines, push_str, seq_lines, seq_starts_with, starts_with_str, str_chars,
};
use crate::analyzer::{
    check_source, law_reported_violations, scannable, spec_check_source, spec_scannable,
    strings_view,
};
use crate::report::{
    adjust_from, adjust_line_in_msg, format_error_line, spec_error_line, GREEN, RED, RESET,
};
use crate::numbers::{decimal, spec_decimal, lemma_decimal_digits, all_digits};
use crate::report::{
    law_colorize_only_adds_codes, lemma_codes, lemma_strip_code, lemma_strip_plain, strip_codes,
    spec_colorize, CYAN,
};

verus! {

broadcast use vstd::string::group_string_axioms;

/// The text the runner checks for a fixture body.
pub open spec fn fixture_source(body: Seq<char>) -> Seq<char> {
    "macro_rules! lt { ($e:expr, $l:expr) => { $e }; }\nfn main() { "@ + body + " }"@
}

/// A violation reported on line `line` of the wrapped text, as a line of
/// the body (clamped to its last line) with its quoted lines shifted back
/// by one.
pub open spec fn relabel(e: (nat, Seq<char>), body_lines: nat) -> (nat, Seq<char>) {
    (
        if e.0 > 1 {
            if (e.0 - 1) as nat <= body_lines {
                (e.0 - 1) as nat
            } else {
                body_lines
            }
        } else {
            1
        },
        adjust_from(e.1, 1)->0,
    )
}

/// The violations of a fixture body, relabelled.
pub open spec fn spec_fixture_errors(body: Seq<char>) -> Seq<(nat, Seq<char>)> {
    spec_check_source(fixture_source(body)).map_values(
        |e: (nat, Seq<char>)| relabel(e, seq_lines(body).len()),
    )
}

/// A fixture passes when an `invalid_` fixture has violations and any other
/// fixture has none.
pub open spec fn spec_fixture_passes(name: Seq<char>, errors: Seq<(nat, Seq<char>)>) -> bool {
    if seq_starts_with(name, "invalid_"@) {
        errors.len() != 0
    } else {
        errors.len() == 0
    }
}

/// The wrapped text for a fixture body.
pub fn fixture_text(body: &str) -> (r: String)
    ensures
        r@ == fixture_source(body@),
{
    let mut v: Vec<char> = Vec::new();
    push_str(&mut v, "macro_rules! lt { ($e:expr, $l:expr) => { $e }; }\nfn main() { ");
    push_str(&mut v, body);
    push_str(&mut v, " }");
    chars_to_string(&v)
}

/// The violations of a fixture body as the first-generation analyzer finds
/// them, relabelled.
pub open spec fn spec_legacy_fixture_errors(body: Seq<char>) -> Seq<(nat, Seq<char>)> {
    crate::legacy::spec_check_source(fixture_source(body)).map_values(
        |e: (nat, Seq<char>)| relabel(e, seq_lines(body).len()),
    )
}

/// Relabels reported violations for a body of `count` lines.
fn relabel_errors(errors: &Vec<(usize, String)>, count: usize) -> (r: Vec<(usize, String)>)
    requires
        forall|k: int|
            0 <= k < errors@.len() ==> crate::report::spec_adjustable(#[trigger] errors@[k].1@),
    ensures
        strings_view(r@) == strings_view(errors@).map_values(
            |e: (nat, Seq<char>)| relabel(e, count as nat),
        ),
{
    let ghost all = strings_view(errors@);
    let mut out: Vec<(usize, String)> = Vec::new();
    let mut i: usize = 0;
    assert(strings_view(out@) =~= all.take(0).map_values(
        |e: (nat, Seq<char>)| relabel(e, count as nat),
    ));
    while i < errors.len()
        invariant
            i <= errors@.len(),
            all == strings_view(errors@),
            forall|k: int|
                0 <= k < errors@.len() ==> crate::report::spec_adjustable(#[trigger] errors@[k].1@),
            strings_view(out@) == all.take(i as int).map_values(
                |e: (nat, Seq<char>)| relabel(e, count as nat),
            ),
        decreases errors@.len() - i,
    {
        let line = errors[i].0;
        assert(all[i as int] == (line as nat, errors@[i as int].1@));
        let orig = if line > 1 {
            if line - 1 <= count {
                line - 1
            } else {
                count
            }
        } else {
            1
        };
        let msg = adjust_line_in_msg(errors[i].1.as_str(), 1);
        let ghost before = strings_view(out@);
        out.push((orig, msg));
        assert(strings_view(out@) =~= before.push(relabel(all[i as int], count as nat)));
        assert(all.take(i + 1).map_values(|e: (nat, Seq<char>)| relabel(e, count as nat))
            =~= all.take(i as int).map_values(|e: (nat, Seq<char>)| relabel(e, count as nat)).push(
            relabel(all[i as int], count as nat),
        ));
        i += 1;
    }
    assert(all.take(i as int) =~= all);
    out
}

fn fixture_verdict(name: &str, errors: &Vec<(usize, String)>) -> (ok: bool)
    ensures
        ok == spec_fixture_passes(name@, strings_view(errors@)),
{
    if starts_with_str(&str_chars(name), "invalid_") {
        errors.len() != 0
    } else {
        errors.len() == 0
    }
}

/// The runner's result for fixture `name` with text `body`: the relabelled
/// violations and whether the fixture passes; `None` where the wrapped text
/// cannot be taken apart into lines.
pub fn evaluate_fixture(name: &str, body: &str) -> (r: Option<(Vec<(usize, String)>, bool)>)
    requires
        body@.len() + 100 < usize::MAX,
    ensures
        r is None <==> !spec_scannable(fixture_source(body@)),
        r matches Some((errs, ok)) ==> {
            &&& strings_view(errs@) == spec_fixture_errors(body@)
            &&& ok == spec_fixture_passes(name@, spec_fixture_errors(body@))
        },
{
    let src = fixture_text(body);
    proof {
        reveal_strlit("macro_rules! lt { ($e:expr, $l:expr) => { $e }; }\nfn main() { ");
        reveal_strlit(" }");
    }
    if !scannable(src.as_str()) {
        return None;
    }
    let errors = check_source(src.as_str());
    proof {
        law_reported_violations(src@);
        assert forall|k: int| 0 <= k < errors@.len() implies crate::report::spec_adjustable(
            #[trigger] errors@[k].1@,
        ) by {
            assert(strings_view(errors@)[k] == (errors@[k].0 as nat, errors@[k].1@));
        }
    }
    let body_chars = str_chars(body);
    let count = lines(&body_chars).len();
    let out = relabel_errors(&errors, count);
    let ok = fixture_verdict(name, &out);
    Some((out, ok))
}

/// The first-generation runner's result for fixture `name` with text
/// `body`: the relabelled violations and whether the fixture passes.
pub fn evaluate_legacy_fixture(name: &str, body: &str) -> (r: (Vec<(usize, String)>, bool))
    requires
        body@.len() + 100 < usize::MAX,
    ensures
        strings_view(r.0@) == spec_legacy_fixture_errors(body@),
        r.1 == spec_fixture_passes(name@, spec_legacy_fixture_errors(body@)),
{
    let src = fixture_text(body);
    proof {
        reveal_strlit("macro_rules! lt { ($e:expr, $l:expr) => { $e }; }\nfn main() { ");
        reveal_strlit(" }");
    }
    let errors = crate::legacy::check_source(src.as_str());
    proof {
        crate::legacy::law_legacy_reported_violations(src@);
        assert forall|k: int| 0 <= k < errors@.len() implies crate::report::spec_adjustable(
            #[trigger] errors@[k].1@,
        ) by {
            assert(strings_view(errors@)[k] == (errors@[k].0 as nat, errors@[k].1@));
        }
    }
    let body_chars = str_chars(body);
    let count = lines(&body_chars).len();
    let out = relabel_errors(&errors, count);
    let ok = fixture_verdict(name, &out);
    (out, ok)
}

/// A fixture's name, its relabelled violations and its verdict, as values.
pub open spec fn results_view(v: Seq<(String, Vec<(usize, String)>, bool)>) -> Seq<
    (Seq<char>, Seq<(nat, Seq<char>)>, bool),
> {
    v.map_values(|r: (String, Vec<(usize, String)>, bool)| (r.0@, strings_view(r.1@), r.2))
}

/// `  PASS  tests/name` or `  FAIL  tests/name`, the verdict coloured or
/// not.
pub open spec fn verdict_line(name: Seq<char>, ok: bool, colored: bool) -> Seq<char> {
    if colored {
        "  "@ + (if ok {
            GREEN@ + "PASS"@
        } else {
            RED@ + "FAIL"@
        }) + RESET@ + "  tests/"@ + name
    } else {
        (if ok {
            "  PASS  tests/"@
        } else {
            "  FAIL  tests/"@
        }) + name
    }
}

/// A violation of fixture `name`, indented under its verdict.
pub open spec fn violation_line(name: Seq<char>, e: (nat, Seq<char>), colored: bool) -> Seq<char> {
    if colored {
        "        "@ + spec_error_line(name, e.0, e.1)
    } else {
        "        tests/"@ + name + seq![':'] + spec_decimal(e.0) + ": "@ + e.1
    }
}

pub open spec fn result_lines(r: (Seq<char>, Seq<(nat, Seq<char>)>, bool), colored: bool) -> Seq<
    Seq<char>,
> {
    seq![verdict_line(r.0, r.2, colored)] + r.1.map_values(
        |e: (nat, Seq<char>)| violation_line(r.0, e, colored),
    )
}

pub open spec fn report_lines(rs: Seq<(Seq<char>, Seq<(nat, Seq<char>)>, bool)>, colored: bool) -> Seq<
    Seq<char>,
>
    decreases rs.len(),
{
    if rs.len() == 0 {
        seq![]
    } else {
        report_lines(rs.drop_last(), colored) + result_lines(rs.last(), colored)
    }
}

/// How many fixtures passed.
pub open spec fn passed(rs: Seq<(Seq<char>, Seq<(nat, Seq<char>)>, bool)>) -> nat
    decreases rs.len(),
{
    if rs.len() == 0 {
        0
    } else {
        passed(rs.drop_last()) + if rs.last().2 {
            1nat
        } else {
            0nat
        }
    }
}

/// `---` and the totals: passed of all, failed, and the cores used.
pub open spec fn summary_line(pass: nat, fail: nat, cores: nat, colored: bool) -> Seq<char> {
    if colored {
        "---\n"@ + GREEN@ + spec_decimal(pass) + RESET@ + seq!['/'] + spec_decimal(pass + fail)
            + " passed, "@ + RED@ + spec_decimal(fail) + RESET@ + " failed  ["@ + spec_decimal(
            cores,
        ) + " cores]"@
    } else {
        "---\n"@ + spec_decimal(pass) + seq!['/'] + spec_decimal(pass + fail) + " passed, "@
            + spec_decimal(fail) + " failed  ["@ + spec_decimal(cores) + " cores]"@
    }
}

/// The report of a fixture run, and whether any fixture failed.
pub open spec fn spec_suite_report(
    rs: Seq<(Seq<char>, Seq<(nat, Seq<char>)>, bool)>,
    cores: nat,
    colored: bool,
) -> (Seq<Seq<char>>, bool) {
    let pass = passed(rs);
    let fail = (rs.len() - pass) as nat;
    (report_lines(rs, colored).push(summary_line(pass, fail, cores, colored)), fail > 0)
}

proof fn lemma_passed_le(rs: Seq<(Seq<char>, Seq<(nat, Seq<char>)>, bool)>)
    ensures
        passed(rs) <= rs.len(),
    decreases rs.len(),
{
    if rs.len() > 0 {
        lemma_passed_le(rs.drop_last());
    }
}

/// How many violations the fixtures have in all.
pub open spec fn violation_count(rs: Seq<(Seq<char>, Seq<(nat, Seq<char>)>, bool)>) -> nat
    decreases rs.len(),
{
    if rs.len() == 0 {
        0
    } else {
        violation_count(rs.drop_last()) + rs.last().1.len()
    }
}

/// Where fixture `i`'s verdict stands in the report: after the verdicts and
/// violations of the fixtures before it.
pub open spec fn verdict_index(rs: Seq<(Seq<char>, Seq<(nat, Seq<char>)>, bool)>, i: int) -> int {
    i + violation_count(rs.take(i))
}

proof fn lemma_report_lines(rs: Seq<(Seq<char>, Seq<(nat, Seq<char>)>, bool)>, colored: bool)
    ensures
        report_lines(rs, colored).len() == rs.len() + violation_count(rs),
        forall|i: int|
            0 <= i < rs.len() ==> verdict_index(rs, i) + rs[i].1.len() < report_lines(rs, colored).len(),
        forall|i: int|
            0 <= i < rs.len() ==> #[trigger] report_lines(rs, colored)[verdict_index(rs, i)]
                == verdict_line(rs[i].0, rs[i].2, colored),
        forall|i: int, k: int|
            0 <= i < rs.len() && 0 <= k < rs[i].1.len() ==> report_lines(rs, colored)[verdict_index(
                rs,
                i,
            ) + 1 + k] == violation_line(rs[i].0, rs[i].1[k], colored),
    decreases rs.len(),
{
    if rs.len() > 0 {
        let init = rs.drop_last();
        lemma_report_lines(init, colored);
        let prev = report_lines(init, colored);
        let last = rs.last();
        let tail = result_lines(last, colored);
        let all = report_lines(rs, colored);
        assert(all == prev + tail);
        assert(tail.len() == 1 + last.1.len());
        assert forall|i: int| 0 <= i < rs.len() implies #[trigger] verdict_index(rs, i) == if i
            < rs.len() - 1 {
            verdict_index(init, i)
        } else {
            prev.len() as int
        } by {
            if i < rs.len() - 1 {
                assert(rs.take(i) =~= init.take(i));
            } else {
                assert(rs.take(i) =~= init);
            }
        }
        assert forall|i: int| 0 <= i < rs.len() implies verdict_index(rs, i) + rs[i].1.len()
            < report_lines(rs, colored).len() by {
            if i < rs.len() - 1 {
                assert(rs[i] == init[i]);
            }
        }
        assert forall|i: int| 0 <= i < rs.len() implies #[trigger] report_lines(rs, colored)[verdict_index(rs, i)]
            == verdict_line(rs[i].0, rs[i].2, colored) by {
            if i < rs.len() - 1 {
                assert(rs[i] == init[i]);
                assert(all[verdict_index(rs, i)] == prev[verdict_index(init, i)]);
            } else {
                assert(all[prev.len() as int] == tail[0]);
            }
        }
        assert forall|i: int, k: int| 0 <= i < rs.len() && 0 <= k < rs[i].1.len() implies report_lines(
            rs,
            colored,
        )[verdict_index(rs, i) + 1 + k] == violation_line(rs[i].0, rs[i].1[k], colored) by {
            if i < rs.len() - 1 {
                assert(rs[i] == init[i]);
                assert(all[verdict_index(rs, i) + 1 + k] == prev[verdict_index(init, i) + 1 + k]);
            } else {
                assert(all[prev.len() + 1 + k] == tail[1 + k]);
                assert(tail[1 + k] == violation_line(last.0, last.1[k], colored));
            }
        }
    }
}

/// The report of a fixture run: for every fixture in order its verdict,
/// then one line for each of its violations in order, and last the totals;
/// so one line per fixture and per violation, and one more. The run fails
/// exactly when some fixture failed.
pub proof fn law_suite_report(
    rs: Seq<(Seq<char>, Seq<(nat, Seq<char>)>, bool)>,
    cores: nat,
    colored: bool,
)
    ensures
        ({
            let (lines, failed) = spec_suite_report(rs, cores, colored);
            &&& lines.len() == rs.len() + violation_count(rs) + 1
            &&& forall|i: int|
                0 <= i < rs.len() ==> #[trigger] lines[verdict_index(rs, i)] == verdict_line(
                    rs[i].0,
                    rs[i].2,
                    colored,
                )
            &&& forall|i: int, k: int|
                0 <= i < rs.len() && 0 <= k < rs[i].1.len() ==> lines[verdict_index(rs, i) + 1 + k]
                    == violation_line(rs[i].0, rs[i].1[k], colored)
            &&& lines.last() == summary_line(
                passed(rs),
                (rs.len() - passed(rs)) as nat,
                cores,
                colored,
            )
            &&& failed == (passed(rs) < rs.len())
        }),
{
    lemma_report_lines(rs, colored);
    lemma_passed_le(rs);
    let body = report_lines(rs, colored);
    let lines = spec_suite_report(rs, cores, colored).0;
    assert forall|x: int| 0 <= x < body.len() implies lines[x] == body[x] by {}
}

proof fn lemma_digits_plain(n: nat)
    ensures
        !spec_decimal(n).contains('\x1b'),
{
    lemma_decimal_digits(n);
    if spec_decimal(n).contains('\x1b') {
        let i = choose|i: int| 0 <= i < spec_decimal(n).len() && spec_decimal(n)[i] == '\x1b';
        assert(crate::text::spec_is_ascii_digit(spec_decimal(n)[i]));
    }
}

proof fn lemma_plain_cat(a: Seq<char>, b: Seq<char>)
    requires
        !a.contains('\x1b'),
        !b.contains('\x1b'),
    ensures
        !(a + b).contains('\x1b'),
{
    if (a + b).contains('\x1b') {
        let i = choose|i: int| 0 <= i < (a + b).len() && (a + b)[i] == '\x1b';
        if i < a.len() {
            assert((a + b)[i] == a[i]);
        } else {
            assert((a + b)[i] == b[i - a.len()]);
        }
    }
}

/// A plain literal holds no escape character.
proof fn lemma_lit_plain(t: Seq<char>)
    requires
        forall|i: int| 0 <= i < t.len() ==> t[i] != '\x1b',
    ensures
        !t.contains('\x1b'),
{
}

#[verifier::spinoff_prover]
proof fn lemma_verdict_forms(name: Seq<char>, ok: bool)
    requires
        !name.contains('\x1b'),
    ensures
        verdict_line(name, ok, false) == (if ok {
            "  PASS  tests/"@
        } else {
            "  FAIL  tests/"@
        }) + name,
        strip_codes(verdict_line(name, ok, true)) == verdict_line(name, ok, false),
{
    lemma_codes();
    reveal_strlit("  ");
    reveal_strlit("PASS");
    reveal_strlit("FAIL");
    reveal_strlit("  tests/");
    reveal_strlit("  PASS  tests/");
    reveal_strlit("  FAIL  tests/");
    reveal_strlit("        ");
    reveal_strlit(": ");
    reveal_strlit("---\n");
    reveal_strlit(" passed, ");
    reveal_strlit(" failed  [");
    reveal_strlit(" cores]");
    let sp = "  "@;
    let word = if ok {
        "PASS"@
    } else {
        "FAIL"@
    };
    let tag = if ok {
        GREEN@
    } else {
        RED@
    };
    let tests = "  tests/"@;
    lemma_lit_plain(sp);
    lemma_lit_plain(word);
    lemma_lit_plain(tests);
    // verdict
    lemma_plain_cat(tests, name);
    lemma_strip_plain(sp, tag + (word + (RESET@ + (tests + name))));
    lemma_strip_code(tag, word + (RESET@ + (tests + name)));
    lemma_strip_plain(word, RESET@ + (tests + name));
    lemma_strip_code(RESET@, tests + name);
    lemma_strip_plain(tests + name, Seq::<char>::empty());
    assert(strip_codes(Seq::<char>::empty()) =~= Seq::<char>::empty());
    assert(verdict_line(name, ok, true) =~= sp + (tag + (word + (RESET@ + (tests + name)))));
    assert(sp + (word + (tests + name + Seq::<char>::empty())) =~= verdict_line(name, ok, false));
}

#[verifier::spinoff_prover]
proof fn lemma_violation_forms(name: Seq<char>, e: (nat, Seq<char>))
    requires
        !name.contains('\x1b'),
        !e.1.contains('\x1b'),
    ensures
        violation_line(name, e, false) == "        tests/"@ + name + seq![':'] + spec_decimal(e.0)
            + ": "@ + e.1,
        strip_codes(violation_line(name, e, true)) == "        "@ + name + seq![':'] + spec_decimal(
            e.0,
        ) + ": "@ + e.1,
{
    lemma_codes();
    reveal_strlit("        ");
    reveal_strlit("        tests/");
    reveal_strlit(": ");
    // violation
    let d = spec_decimal(e.0);
    lemma_digits_plain(e.0);
    law_colorize_only_adds_codes(e.1);
    let ind = "        "@;
    let colon = seq![':'];
    let rest = colon + (RESET@ + (seq![' '] + spec_colorize(e.1)));
    lemma_lit_plain(ind);
    lemma_lit_plain(colon);
    lemma_lit_plain(seq![' ']);
    lemma_plain_cat(name, colon);
    lemma_plain_cat(name + colon, d);
    lemma_strip_plain(ind, CYAN@ + (name + colon + d + rest));
    lemma_strip_code(CYAN@, name + colon + d + rest);
    lemma_strip_plain(name + colon + d, rest);
    lemma_strip_plain(colon, RESET@ + (seq![' '] + spec_colorize(e.1)));
    lemma_strip_code(RESET@, seq![' '] + spec_colorize(e.1));
    lemma_strip_plain(seq![' '], spec_colorize(e.1));
    assert(violation_line(name, e, true) =~= ind + (CYAN@ + (name + colon + d + rest)));
    assert(ind + (name + colon + d + (colon + (seq![' '] + e.1))) =~= "        "@ + name + seq![
        ':',
    ] + spec_decimal(e.0) + ": "@ + e.1);
}

#[verifier::spinoff_prover]
#[verifier::rlimit(80)]
proof fn lemma_summary_forms(pass: nat, fail: nat, cores: nat)
    ensures
        summary_line(pass, fail, cores, false) == "---\n"@ + spec_decimal(pass) + seq!['/']
            + spec_decimal(pass + fail) + " passed, "@ + spec_decimal(fail) + " failed  ["@
            + spec_decimal(cores) + " cores]"@,
        strip_codes(summary_line(pass, fail, cores, true)) == summary_line(pass, fail, cores, false),
{
    lemma_codes();
    reveal_strlit("---\n");
    reveal_strlit(" passed, ");
    reveal_strlit(" failed  [");
    reveal_strlit(" cores]");
    // totals
    let head = "---\n"@;
    let dp = spec_decimal(pass);
    let dt = spec_decimal(pass + fail);
    let df = spec_decimal(fail);
    let dc = spec_decimal(cores);
    let s1 = " passed, "@;
    let s2 = " failed  ["@;
    let s3 = " cores]"@;
    lemma_digits_plain(pass);
    lemma_digits_plain(pass + fail);
    lemma_digits_plain(fail);
    lemma_digits_plain(cores);
    lemma_lit_plain(head);
    lemma_lit_plain(s1);
    lemma_lit_plain(s2);
    lemma_lit_plain(s3);
    lemma_lit_plain(seq!['/']);
    lemma_plain_cat(dc, s3);
    lemma_plain_cat(s2, dc + s3);
    lemma_plain_cat(df, s2 + (dc + s3));
    let t2 = seq!['/'] + (dt + (s1 + (RED@ + (df + (RESET@ + (s2 + (dc + s3)))))));
    lemma_strip_plain(head, GREEN@ + (dp + (RESET@ + t2)));
    lemma_strip_code(GREEN@, dp + (RESET@ + t2));
    lemma_strip_plain(dp, RESET@ + t2);
    lemma_strip_code(RESET@, t2);
    let w = seq!['/'] + (dt + s1);
    lemma_plain_cat(dt, s1);
    lemma_plain_cat(seq!['/'], dt + s1);
    let t4 = df + (RESET@ + (s2 + (dc + s3)));
    lemma_strip_plain(w, RED@ + t4);
    lemma_strip_code(RED@, t4);
    lemma_strip_plain(df, RESET@ + (s2 + (dc + s3)));
    lemma_strip_code(RESET@, s2 + (dc + s3));
    lemma_plain_cat(s2, dc + s3);
    lemma_strip_plain(s2 + (dc + s3), Seq::<char>::empty());
    assert(summary_line(pass, fail, cores, true) =~= head + (GREEN@ + (dp + (RESET@ + (w + (RED@
        + t4))))));
    assert(t2 =~= w + (RED@ + t4));
    assert(head + (dp + (w + (df + (s2 + (dc + s3) + Seq::<char>::empty())))) =~= summary_line(
        pass,
        fail,
        cores,
        false,
    ));
}

/// The lines of a plain report, and how the coloured report relates to it:
/// taking the colour codes out of a coloured verdict or totals line gives
/// the plain one, and out of a coloured violation line gives
/// `name:line: message` after the same indentation.
pub proof fn law_report_line_forms(
    name: Seq<char>,
    ok: bool,
    e: (nat, Seq<char>),
    pass: nat,
    fail: nat,
    cores: nat,
)
    requires
        !name.contains('\x1b'),
        !e.1.contains('\x1b'),
    ensures
        verdict_line(name, ok, false) == (if ok {
            "  PASS  tests/"@
        } else {
            "  FAIL  tests/"@
        }) + name,
        strip_codes(verdict_line(name, ok, true)) == verdict_line(name, ok, false),
        violation_line(name, e, false) == "        tests/"@ + name + seq![':'] + spec_decimal(e.0)
            + ": "@ + e.1,
        strip_codes(violation_line(name, e, true)) == "        "@ + name + seq![':'] + spec_decimal(
            e.0,
        ) + ": "@ + e.1,
        summary_line(pass, fail, cores, false) == "---\n"@ + spec_decimal(pass) + seq!['/']
            + spec_decimal(pass + fail) + " passed, "@ + spec_decimal(fail) + " failed  ["@
            + spec_decimal(cores) + " cores]"@,
        strip_codes(summary_line(pass, fail, cores, true)) == summary_line(pass, fail, cores, false),
{
    lemma_verdict_forms(name, ok);
    lemma_violation_forms(name, e);
    lemma_summary_forms(pass, fail, cores);
}

fn verdict_text(name: &str, ok: bool, colored: bool) -> (r: String)
    ensures
        r@ == verdict_line(name@, ok, colored),
{
    let mut v: Vec<char> = Vec::new();
    if colored {
        push_str(&mut v, "  ");
        if ok {
            push_str(&mut v, GREEN);
            push_str(&mut v, "PASS");
        } else {
            push_str(&mut v, RED);
            push_str(&mut v, "FAIL");
        }
        push_str(&mut v, RESET);
        push_str(&mut v, "  tests/");
    } else if ok {
        push_str(&mut v, "  PASS  tests/");
    } else {
        push_str(&mut v, "  FAIL  tests/");
    }
    push_str(&mut v, name);
    assert(v@ =~= verdict_line(name@, ok, colored));
    chars_to_string(&v)
}

fn violation_text(name: &str, line: usize, msg: &str, colored: bool) -> (r: String)
    ensures
        r@ == violation_line(name@, (line as nat, msg@), colored),
{
    let mut v: Vec<char> = Vec::new();
    if colored {
        push_str(&mut v, "        ");
        let l = format_error_line(name, line, msg);
        push_str(&mut v, l.as_str());
    } else {
        push_str(&mut v, "        tests/");
        push_str(&mut v, name);
        v.push(':');
        let d = decimal(line);
        crate::text::push_all(&mut v, d.as_slice());
        push_str(&mut v, ": ");
        push_str(&mut v, msg);
    }
    assert(v@ =~= violation_line(name@, (line as nat, msg@), colored));
    chars_to_string(&v)
}

fn summary_text(pass: usize, fail: usize, cores: usize, colored: bool) -> (r: String)
    requires
        pass + fail <= usize::MAX,
    ensures
        r@ == summary_line(pass as nat, fail as nat, cores as nat, colored),
{
    let mut v: Vec<char> = Vec::new();
    let total = pass + fail;
    push_str(&mut v, "---\n");
    if colored {
        push_str(&mut v, GREEN);
    }
    crate::text::push_all(&mut v, decimal(pass).as_slice());
    if colored {
        push_str(&mut v, RESET);
    }
    v.push('/');
    crate::text::push_all(&mut v, decimal(total).as_slice());
    push_str(&mut v, " passed, ");
    if colored {
        push_str(&mut v, RED);
    }
    crate::text::push_all(&mut v, decimal(fail).as_slice());
    if colored {
        push_str(&mut v, RESET);
    }
    push_str(&mut v, " failed  [");
    crate::text::push_all(&mut v, decimal(cores).as_slice());
    push_str(&mut v, " cores]");
    assert(v@ =~= summary_line(pass as nat, fail as nat, cores as nat, colored));
    chars_to_string(&v)
}

/// The lines that a fixture run prints for `results` on `cores` cores, the
/// verdicts coloured or not, and whether any fixture failed.
pub fn suite_report(results: &Vec<(String, Vec<(usize, String)>, bool)>, cores: usize, colored: bool) -> (r: (
    Vec<String>,
    bool,
))
    ensures
        crate::cli::str_views(r.0@) == spec_suite_report(results_view(results@), cores as nat, colored).0,
        r.1 == spec_suite_report(results_view(results@), cores as nat, colored).1,
{
    let ghost rs = results_view(results@);
    let mut out: Vec<String> = Vec::new();
    let mut pass: usize = 0;
    let mut fail: usize = 0;
    let mut i: usize = 0;
    assert(rs.take(0) =~= Seq::<(Seq<char>, Seq<(nat, Seq<char>)>, bool)>::empty());
    assert(crate::cli::str_views(out@) =~= Seq::<Seq<char>>::empty());
    while i < results.len()
        invariant
            i <= results@.len(),
            rs == results_view(results@),
            crate::cli::str_views(out@) == report_lines(rs.take(i as int), colored),
            pass == passed(rs.take(i as int)),
            pass + fail == i,
        decreases results@.len() - i,
    {
        let ghost r = rs[i as int];
        assert(rs.take(i + 1).drop_last() =~= rs.take(i as int));
        assert(rs.take(i + 1).last() == r);
        assert(r == (results@[i as int].0@, strings_view(results@[i as int].1@), results@[i as int].2));
        let name = results[i].0.as_str();
        let ok = results[i].2;
        if ok {
            pass += 1;
        } else {
            fail += 1;
        }
        let ghost before = crate::cli::str_views(out@);
        out.push(verdict_text(name, ok, colored));
        let errs = &results[i].1;
        let mut k: usize = 0;
        assert(crate::cli::str_views(out@) =~= before + result_lines(r, colored).take(1));
        while k < errs.len()
            invariant
                k <= errs@.len(),
                errs@ == results@[i as int].1@,
                r.1 == strings_view(errs@),
                r.0 == name@,
                crate::cli::str_views(out@) == before + result_lines(r, colored).take(k + 1),
            decreases errs@.len() - k,
        {
            let ghost mid = crate::cli::str_views(out@);
            let line = violation_text(name, errs[k].0, errs[k].1.as_str(), colored);
            assert(r.1[k as int] == (errs@[k as int].0 as nat, errs@[k as int].1@));
            out.push(line);
            assert(crate::cli::str_views(out@) =~= mid.push(line@));
            assert(result_lines(r, colored).take(k + 2) =~= result_lines(r, colored).take(k + 1).push(
                violation_line(r.0, r.1[k as int], colored),
            ));
            k += 1;
        }
        assert(result_lines(r, colored).take(k + 1) =~= result_lines(r, colored));
        i += 1;
    }
    assert(rs.take(i as int) =~= rs);
    proof {
        lemma_passed_le(rs);
    }
    let summary = summary_text(pass, fail, cores, colored);
    let ghost lines_before = crate::cli::str_views(out@);
    out.push(summary);
    assert(crate::cli::str_views(out@) =~= lines_before.push(summary@));
    (out, fail > 0)
}

} // verus!
