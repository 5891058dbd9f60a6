//! Joining physical lines into logical lines: an `lt!(` whose closing `)` is
//! on a later line pulls the following lines into its own, so that an
//! annotation split over several lines is analysed as one statement.
//!
//! The search for `lt!(` walks the UTF-8 bytes of a line and compares the
//! four bytes at each position with `lt!(`; a position where those four
//! bytes would not start and end on character boundaries cannot be compared
//! as text, and the search reports it (`None`) instead of answering.
use vstd::prelude::*;
use vstd::utf8::encode_utf8;
use crate::text::{chars_to_string, seq_lines, lines, views};

verus! {

broadcast use vstd::string::group_string_axioms;

/// `str::is_char_boundary` on UTF-8 bytes.
pub open spec fn is_char_boundary(b: Seq<u8>, i: int) -> bool {
    i == 0 || i == b.len() || (0 < i < b.len() && !(0x80 <= b[i] && b[i] <= 0xBF))
}

/// Inside a string literal that opened just before `j`: the index of the
/// closing `"`, skipping backslash escapes (it may lie past the end).
pub open spec fn skip_quoted(b: Seq<u8>, j: int) -> int
    decreases b.len() + 1 - j,
{
    if j < 0 || j >= b.len() {
        j
    } else if b[j] == 0x22u8 {
        j
    } else if b[j] == 0x5Cu8 {
        skip_quoted(b, j + 2)
    } else {
        skip_quoted(b, j + 1)
    }
}

pub proof fn lemma_skip_quoted(b: Seq<u8>, j: int)
    requires
        0 <= j <= b.len() + 1,
    ensures
        j <= skip_quoted(b, j) <= b.len() + 1,
        j <= b.len() ==> skip_quoted(b, j) <= b.len() + 1,
    decreases b.len() + 1 - j,
{
    if j < b.len() && b[j] != 0x22u8 {
        if b[j] == 0x5Cu8 {
            lemma_skip_quoted(b, j + 2);
        } else {
            lemma_skip_quoted(b, j + 1);
        }
    }
}

/// Inside `lt!(` from `j` with `depth` open parentheses: the index just
/// after the `)` that closes the macro call, skipping string literals;
/// `None` when the call is not closed in `b`.
pub open spec fn lt_scan_close(b: Seq<u8>, j: int, depth: int) -> Option<int>
    decreases b.len() + 2 - j,
{
    if j < 0 || j >= b.len() {
        None
    } else if b[j] == 0x28u8 {
        lt_scan_close(b, j + 1, depth + 1)
    } else if b[j] == 0x29u8 {
        if depth - 1 == 0 {
            Some(j + 1)
        } else {
            lt_scan_close(b, j + 1, depth - 1)
        }
    } else if b[j] == 0x22u8 {
        proof {
            lemma_skip_quoted(b, j + 1);
        }
        let k = skip_quoted(b, j + 1);
        lt_scan_close(
            b,
            if k < b.len() {
                k + 1
            } else {
                k
            },
            depth,
        )
    } else {
        lt_scan_close(b, j + 1, depth)
    }
}

pub proof fn lemma_lt_scan_close(b: Seq<u8>, j: int, depth: int)
    requires
        0 <= j,
    ensures
        lt_scan_close(b, j, depth) matches Some(k) ==> j < k <= b.len(),
    decreases b.len() + 2 - j,
{
    if 0 <= j < b.len() {
        if b[j] == 0x28u8 {
            lemma_lt_scan_close(b, j + 1, depth + 1);
        } else if b[j] == 0x29u8 {
            if depth - 1 != 0 {
                lemma_lt_scan_close(b, j + 1, depth - 1);
            }
        } else if b[j] == 0x22u8 {
            lemma_skip_quoted(b, j + 1);
            let k = skip_quoted(b, j + 1);
            lemma_lt_scan_close(
                b,
                if k < b.len() {
                    k + 1
                } else {
                    k
                },
                depth,
            );
        } else {
            lemma_lt_scan_close(b, j + 1, depth);
        }
    }
}

/// The bytes of `lt!(`.
pub open spec fn lt_open_bytes() -> Seq<u8> {
    seq![0x6Cu8, 0x74u8, 0x21u8, 0x28u8]
}

/// Scanning from byte `i` outside (or inside) a string literal: whether some
/// `lt!(` is left without its closing `)`; `None` where the four bytes at a
/// position to compare do not start and end on character boundaries.
pub open spec fn unclosed_scan(b: Seq<u8>, i: int, in_str: bool) -> Option<bool>
    decreases b.len() + 1 - i,
{
    if i < 0 || i >= b.len() {
        Some(false)
    } else if b[i] == 0x22u8 {
        unclosed_scan(b, i + 1, !in_str)
    } else if in_str {
        unclosed_scan(b, i + 1, in_str)
    } else if i + 4 <= b.len() {
        if !(is_char_boundary(b, i) && is_char_boundary(b, i + 4)) {
            None
        } else if b.subrange(i, i + 4) == lt_open_bytes() {
            proof {
                lemma_lt_scan_close(b, i + 4, 1);
            }
            match lt_scan_close(b, i + 4, 1) {
                None => Some(true),
                Some(j) => unclosed_scan(b, j, in_str),
            }
        } else {
            unclosed_scan(b, i + 1, in_str)
        }
    } else {
        unclosed_scan(b, i + 1, in_str)
    }
}

/// Whether the text holds an `lt!(` that it does not close.
pub open spec fn spec_has_unclosed_lt(s: Seq<char>) -> Option<bool> {
    unclosed_scan(encode_utf8(s), 0, false)
}

fn is_boundary(b: &[u8], i: usize) -> (r: bool)
    requires
        i <= b@.len(),
    ensures
        r == is_char_boundary(b@, i as int),
{
    i == 0 || i == b.len() || !(0x80 <= b[i] && b[i] <= 0xBF)
}

fn scan_close(b: &[u8], start: usize) -> (r: Option<usize>)
    requires
        1 <= start <= b@.len(),
    ensures
        r matches Some(k) ==> lt_scan_close(b@, start as int, 1) == Some(k as int) && k <= b@.len(),
        r is None ==> lt_scan_close(b@, start as int, 1) is None,
{
    let len = b.len();
    let mut depth: usize = 1;
    let mut j: usize = start;
    while j < len
        invariant
            len == b@.len(),
            1 <= start <= j <= len,
            1 <= depth <= j - start + 1,
            lt_scan_close(b@, start as int, 1) == lt_scan_close(b@, j as int, depth as int),
        decreases len + 2 - j,
    {
        let c = b[j];
        if c == 0x28u8 {
            depth += 1;
        } else if c == 0x29u8 {
            depth -= 1;
            if depth == 0 {
                return Some(j + 1);
            }
        } else if c == 0x22u8 {
            let ghost j0 = j;
            j += 1;
            let ghost mut js: int = j as int;
            while j < len && b[j] != 0x22u8
                invariant
                    len == b@.len(),
                    j0 < j <= len,
                    js == j || (j == len && js == len + 1),
                    skip_quoted(b@, j0 + 1) == skip_quoted(b@, js),
                decreases len - j,
            {
                if b[j] == 0x5Cu8 {
                    if j + 1 < len {
                        j += 2;
                        proof {
                            js = j as int;
                        }
                    } else {
                        j = len;
                        proof {
                            js = len + 1;
                        }
                    }
                } else {
                    j += 1;
                    proof {
                        js = j as int;
                    }
                }
            }
            assert(skip_quoted(b@, js) == js);
            assert(lt_scan_close(b@, j0 as int, depth as int) == lt_scan_close(
                b@,
                if js < len {
                    js + 1
                } else {
                    js
                },
                depth as int,
            ));
            if j < len {
                j += 1;
            }
            assert(lt_scan_close(b@, j0 as int, depth as int) == lt_scan_close(
                b@,
                j as int,
                depth as int,
            ));
            continue;
        }
        j += 1;
    }
    None
}

/// `has_unclosed_lt` on the UTF-8 bytes of a line: `Some(true)` when an
/// `lt!(` is not closed, `Some(false)` when every `lt!(` is closed, `None`
/// where comparing four bytes with `lt!(` would split a character.
pub fn has_unclosed_lt(b: &[u8]) -> (r: Option<bool>)
    ensures
        r == unclosed_scan(b@, 0, false),
{
    let len = b.len();
    let mut in_str = false;
    let mut i: usize = 0;
    while i < len
        invariant
            len == b@.len(),
            i <= len,
            unclosed_scan(b@, 0, false) == unclosed_scan(b@, i as int, in_str),
        decreases len + 1 - i,
    {
        if b[i] == 0x22u8 {
            in_str = !in_str;
            i += 1;
            continue;
        }
        if in_str {
            i += 1;
            continue;
        }
        if len >= 4 && i <= len - 4 {
            if !(is_boundary(b, i) && is_boundary(b, i + 4)) {
                return None;
            }
            if b[i] == 0x6Cu8 && b[i + 1] == 0x74u8 && b[i + 2] == 0x21u8 && b[i + 3] == 0x28u8 {
                assert(b@.subrange(i as int, i + 4) =~= lt_open_bytes());
                proof {
                    lemma_lt_scan_close(b@, i + 4, 1);
                }
                match scan_close(b, i + 4) {
                    None => {
                        return Some(true);
                    },
                    Some(j) => {
                        i = j;
                        continue;
                    },
                }
            } else {
                assert(b@.subrange(i as int, i + 4) != lt_open_bytes()) by {
                    if b@.subrange(i as int, i + 4) == lt_open_bytes() {
                        assert(b@.subrange(i as int, i + 4)[0] == b@[i as int]);
                        assert(b@.subrange(i as int, i + 4)[1] == b@[i + 1]);
                        assert(b@.subrange(i as int, i + 4)[2] == b@[i + 2]);
                        assert(b@.subrange(i as int, i + 4)[3] == b@[i + 3]);
                    }
                }
            }
        }
        i += 1;
    }
    Some(false)
}

/// The UTF-8 encoding of a character sequence.
fn utf8_bytes(s: &[char]) -> (b: Vec<u8>)
    ensures
        b@ == encode_utf8(s@),
{
    let st = chars_to_string(s);
    let bytes = st.as_str().as_bytes();
    vstd::slice::slice_to_vec(bytes)
}

/// `has_unclosed_lt` on a line of text.
pub fn line_has_unclosed_lt(s: &[char]) -> (r: Option<bool>)
    ensures
        r == spec_has_unclosed_lt(s@),
{
    let b = utf8_bytes(s);
    has_unclosed_lt(&b)
}

/// Logical lines, each with the number of its first physical line.
pub open spec fn pairs_view(v: Seq<(usize, Vec<char>)>) -> Seq<(nat, Seq<char>)> {
    v.map_values(|p: (usize, Vec<char>)| (p.0 as nat, p.1@))
}

/// Joining the first `lines.len()` physical lines: the logical lines so far
/// and the logical line still waiting for its `)`; `None` where the search
/// for `lt!(` cannot compare text.
pub open spec fn join_state(lines: Seq<Seq<char>>) -> Option<
    (Seq<(nat, Seq<char>)>, Option<(nat, Seq<char>)>),
>
    decreases lines.len(),
{
    if lines.len() == 0 {
        Some((seq![], None))
    } else {
        match join_state(lines.drop_last()) {
            None => None,
            Some((res, pending)) => {
                let line_num = lines.len();
                let s = lines.last();
                match pending {
                    Some((first, acc0)) => {
                        let acc = acc0 + seq!['\n'] + s;
                        match spec_has_unclosed_lt(acc) {
                            None => None,
                            Some(false) => Some((res.push((first, acc)), None)),
                            Some(true) => Some((res, Some((first, acc)))),
                        }
                    },
                    None => match spec_has_unclosed_lt(s) {
                        None => None,
                        Some(true) => Some((res, Some((line_num, s)))),
                        Some(false) => Some((res.push((line_num, s)), None)),
                    },
                }
            },
        }
    }
}

/// The logical lines of `src`, each numbered by its first physical line
/// (counting from 1); `None` where the search for `lt!(` cannot compare text.
pub open spec fn spec_join_lt_lines(src: Seq<char>) -> Option<Seq<(nat, Seq<char>)>> {
    match join_state(seq_lines(src)) {
        None => None,
        Some((res, pending)) => Some(
            match pending {
                Some(p) => res.push(p),
                None => res,
            },
        ),
    }
}

pub proof fn lemma_join_state_none(ls: Seq<Seq<char>>, k: int)
    requires
        0 <= k <= ls.len(),
        join_state(ls.take(k)) is None,
    ensures
        join_state(ls) is None,
    decreases ls.len() - k,
{
    if k == ls.len() {
        assert(ls.take(k) =~= ls);
    } else {
        assert(ls.take(k + 1).drop_last() =~= ls.take(k));
        lemma_join_state_none(ls, k + 1);
    }
}

/// Texts put together with a newline between each two.
pub open spec fn join_nl(xs: Seq<Seq<char>>) -> Seq<char>
    decreases xs.len(),
{
    if xs.len() == 0 {
        seq![]
    } else if xs.len() == 1 {
        xs[0]
    } else {
        join_nl(xs.drop_last()) + seq!['\n'] + xs.last()
    }
}

/// The texts of numbered lines.
pub open spec fn texts(ps: Seq<(nat, Seq<char>)>) -> Seq<Seq<char>> {
    ps.map_values(|p: (nat, Seq<char>)| p.1)
}

pub open spec fn with_pending(res: Seq<(nat, Seq<char>)>, pend: Option<(nat, Seq<char>)>) -> Seq<
    (nat, Seq<char>),
> {
    match pend {
        Some(p) => res.push(p),
        None => res,
    }
}

proof fn lemma_join_nl_extend_last(t: Seq<Seq<char>>, x: Seq<char>, s: Seq<char>)
    ensures
        join_nl(t.push(x + seq!['\n'] + s)) == join_nl(t.push(x)) + seq!['\n'] + s,
{
    assert(t.push(x + seq!['\n'] + s).drop_last() =~= t);
    assert(t.push(x).drop_last() =~= t);
    if t.len() > 0 {
        assert(join_nl(t) + seq!['\n'] + (x + seq!['\n'] + s) =~= (join_nl(t) + seq!['\n'] + x)
            + seq!['\n'] + s);
    }
}

proof fn lemma_join_state_text(ls: Seq<Seq<char>>)
    requires
        join_state(ls) is Some,
    ensures
        join_nl(texts(with_pending((join_state(ls)->0).0, (join_state(ls)->0).1))) == join_nl(ls),
        with_pending((join_state(ls)->0).0, (join_state(ls)->0).1).len() == 0 <==> ls.len() == 0,
    decreases ls.len(),
{
    if ls.len() > 0 {
        lemma_join_state_text(ls.drop_last());
        let (res0, pend0) = join_state(ls.drop_last())->0;
        let (res, pend) = join_state(ls)->0;
        let all = with_pending(res, pend);
        let s = ls.last();
        match pend0 {
            Some(p0) => {
                let acc = p0.1 + seq!['\n'] + s;
                assert(texts(all) =~= texts(res0).push(acc));
                assert(texts(with_pending(res0, pend0)) =~= texts(res0).push(p0.1));
                lemma_join_nl_extend_last(texts(res0), p0.1, s);
                assert(ls.drop_last().len() > 0);
            },
            None => {
                assert(texts(all) =~= texts(res0).push(s));
                assert(texts(res0).push(s).drop_last() =~= texts(res0));
                if ls.len() == 1 {
                    assert(texts(res0).len() == 0);
                }
            },
        }
    }
}

pub proof fn lemma_join_state_lines(ls: Seq<Seq<char>>)
    requires
        join_state(ls) is Some,
    ensures
        forall|i: int|
            0 <= i < (join_state(ls)->0).0.len() ==> 1 <= (#[trigger] (join_state(ls)->0).0[i]).0
                <= ls.len(),
        (join_state(ls)->0).1 matches Some(p) ==> 1 <= p.0 <= ls.len(),
        forall|i: int, j: int|
            0 <= i < j < (join_state(ls)->0).0.len() ==> (join_state(ls)->0).0[i].0 < (join_state(
                ls,
            )->0).0[j].0,
        (join_state(ls)->0).1 matches Some(p) ==> forall|i: int|
            0 <= i < (join_state(ls)->0).0.len() ==> (#[trigger] (join_state(ls)->0).0[i]).0 < p.0,
    decreases ls.len(),
{
    if ls.len() > 0 {
        lemma_join_state_lines(ls.drop_last());
        let (res0, pend0) = join_state(ls.drop_last())->0;
        let (res, pend) = join_state(ls)->0;
        if res.len() > res0.len() {
            assert(res == res0.push(res.last()));
            assert forall|i: int| 0 <= i < res0.len() implies res0[i].0 < res.last().0 by {
                assert(1 <= res0[i].0 <= ls.len() - 1);
            }
            assert forall|i: int, j: int| 0 <= i < j < res.len() implies res[i].0 < res[j].0 by {
                if j == res.len() - 1 {
                    assert(res[i] == res0[i]);
                } else {
                    assert(res[i] == res0[i] && res[j] == res0[j]);
                }
            }
        }
    }
}

/// Joining loses no text and keeps the order: the logical lines, put back
/// together with newlines, are the physical lines put together with
/// newlines; each is numbered by a physical line, and the numbers increase.
pub proof fn law_join_keeps_lines(src: Seq<char>)
    requires
        spec_join_lt_lines(src) is Some,
    ensures
        join_nl(texts(spec_join_lt_lines(src)->0)) == join_nl(seq_lines(src)),
        forall|i: int|
            0 <= i < (spec_join_lt_lines(src)->0).len() ==> 1 <= (#[trigger] (spec_join_lt_lines(
                src,
            )->0)[i]).0 <= seq_lines(src).len(),
        forall|i: int, j: int|
            0 <= i < j < (spec_join_lt_lines(src)->0).len() ==> (spec_join_lt_lines(src)->0)[i].0
                < (spec_join_lt_lines(src)->0)[j].0,
{
    let ls = seq_lines(src);
    lemma_join_state_text(ls);
    lemma_join_state_lines(ls);
    let (res, pend) = join_state(ls)->0;
    let joined = spec_join_lt_lines(src)->0;
    assert(joined == with_pending(res, pend));
    match pend {
        Some(p) => {
            assert forall|i: int, j: int| 0 <= i < j < joined.len() implies joined[i].0 < joined[j].0 by {
                if j < res.len() {
                    assert(joined[i] == res[i] && joined[j] == res[j]);
                } else {
                    assert(joined[i] == res[i]);
                }
            }
            assert forall|i: int| 0 <= i < joined.len() implies 1 <= (#[trigger] joined[i]).0
                <= ls.len() by {
                if i < res.len() {
                    assert(joined[i] == res[i]);
                }
            }
        },
        None => {},
    }
}

pub fn join_lt_lines(src: &[char]) -> (r: Option<Vec<(usize, Vec<char>)>>)
    ensures
        r matches Some(v) ==> spec_join_lt_lines(src@) == Some(pairs_view(v@)),
        r is None ==> spec_join_lt_lines(src@) is None,
{
    let all = lines(src);
    let ghost ls = views(all@);
    let mut result: Vec<(usize, Vec<char>)> = Vec::new();
    let mut pending: Option<(usize, Vec<char>)> = None;
    let mut i: usize = 0;
    assert(ls.take(0) =~= Seq::<Seq<char>>::empty());
    assert(pairs_view(result@) =~= Seq::<(nat, Seq<char>)>::empty());
    while i < all.len()
        invariant
            ls == views(all@),
            ls == seq_lines(src@),
            i <= all@.len(),
            join_state(ls.take(i as int)) == Some(
                (
                    pairs_view(result@),
                    match pending {
                        Some(p) => Some((p.0 as nat, p.1@)),
                        None => None,
                    },
                ),
            ),
            pending matches Some(p) ==> p.0 <= i,
        decreases all@.len() - i,
    {
        let line_num = i + 1;
        let s = &all[i];
        assert(ls.take(i + 1).drop_last() =~= ls.take(i as int));
        assert(ls.take(i + 1).last() == s@);
        let p = pending.take();
        match p {
            Some((first, acc0)) => {
                let mut acc = acc0;
                acc.push('\n');
                crate::text::push_all(&mut acc, s.as_slice());
                assert(acc@ =~= acc0@ + seq!['\n'] + s@);
                match line_has_unclosed_lt(&acc) {
                    None => {
                        proof {
                            lemma_join_state_none(ls, i + 1);
                        }
                        return None;
                    },
                    Some(false) => {
                        let ghost before = pairs_view(result@);
                        result.push((first, acc));
                        assert(pairs_view(result@) =~= before.push((first as nat, acc@)));
                        pending = None;
                    },
                    Some(true) => {
                        pending = Some((first, acc));
                    },
                }
            },
            None => {
                match line_has_unclosed_lt(s.as_slice()) {
                    None => {
                        proof {
                            lemma_join_state_none(ls, i + 1);
                        }
                        return None;
                    },
                    Some(true) => {
                        pending = Some((line_num, s.clone()));
                    },
                    Some(false) => {
                        let ghost before = pairs_view(result@);
                        result.push((line_num, s.clone()));
                        assert(pairs_view(result@) =~= before.push((line_num as nat, s@)));
                    },
                }
            },
        }
        i += 1;
    }
    assert(ls.take(all@.len() as int) =~= ls);
    match pending {
        Some(p) => {
            let ghost before = pairs_view(result@);
            let ghost pv = (p.0 as nat, p.1@);
            result.push(p);
            assert(pairs_view(result@) =~= before.push(pv));
        },
        None => {},
    }
    Some(result)
}

} // verus!
