//! Character-level text model: the sequence operations that the scanner
//! performs on source text (trimming, searching, splitting into lines),
//! each stated over `Seq<char>` and implemented on `&[char]`.
use vstd::prelude::*;

verus! {

broadcast use vstd::string::group_string_axioms;

// ------------------------------------------------------------------
// Character classes
// ------------------------------------------------------------------

/// Unicode `White_Space`, the set that `char::is_whitespace` recognises.
pub open spec fn spec_is_whitespace(c: char) -> bool {
    let u = c as u32;
    ||| 0x09 <= u <= 0x0D
    ||| u == 0x20 || u == 0x85 || u == 0xA0 || u == 0x1680
    ||| 0x2000 <= u <= 0x200A
    ||| u == 0x2028 || u == 0x2029 || u == 0x202F || u == 0x205F || u == 0x3000
}

pub open spec fn spec_is_ascii_alphabetic(c: char) -> bool {
    ('a' <= c && c <= 'z') || ('A' <= c && c <= 'Z')
}

pub open spec fn spec_is_ascii_digit(c: char) -> bool {
    '0' <= c && c <= '9'
}

pub open spec fn spec_is_ascii_alphanumeric(c: char) -> bool {
    spec_is_ascii_alphabetic(c) || spec_is_ascii_digit(c)
}

/// A character that may continue an identifier.
pub open spec fn is_ident_char(c: char) -> bool {
    spec_is_ascii_alphanumeric(c) || c == '_'
}

pub fn is_whitespace(c: char) -> (b: bool)
    ensures
        b == spec_is_whitespace(c),
{
    let u = c as u32;
    (0x09 <= u && u <= 0x0D) || u == 0x20 || u == 0x85 || u == 0xA0 || u == 0x1680 || (0x2000
        <= u && u <= 0x200A) || u == 0x2028 || u == 0x2029 || u == 0x202F || u == 0x205F || u
        == 0x3000
}

pub fn is_ascii_alphabetic(c: char) -> (b: bool)
    ensures
        b == spec_is_ascii_alphabetic(c),
{
    ('a' <= c && c <= 'z') || ('A' <= c && c <= 'Z')
}

pub fn is_ascii_alphanumeric(c: char) -> (b: bool)
    ensures
        b == spec_is_ascii_alphanumeric(c),
{
    ('a' <= c && c <= 'z') || ('A' <= c && c <= 'Z') || ('0' <= c && c <= '9')
}

// ------------------------------------------------------------------
// Conversions between `str`/`String` and character slices
// ------------------------------------------------------------------

/// The characters of a string slice, in order.
pub fn str_chars(s: &str) -> (v: Vec<char>)
    ensures
        v@ == s@,
{
    let mut v: Vec<char> = Vec::new();
    for c in it: s.chars()
        invariant
            v@ == it.seq().take(it.index() as int),
            it.seq() == s@,
    {
        v.push(c);
    }
    v
}

/// Collects the characters into a `String` through std's
/// `FromIterator<&char> for String`. Trusted, not proved: the contract
/// claims that the string holds exactly these characters, in order.
#[verifier::external_body]
pub(crate) fn chars_to_string(v: &[char]) -> (s: String)
    ensures
        s@ == v@,
{
    v.iter().collect()
}

/// Appends every character of `src` to `dst`.
pub fn push_all(dst: &mut Vec<char>, src: &[char])
    ensures
        final(dst)@ == old(dst)@ + src@,
{
    let ghost start = dst@;
    let mut i: usize = 0;
    while i < src.len()
        invariant
            i <= src@.len(),
            dst@ == start + src@.take(i as int),
        decreases src@.len() - i,
    {
        dst.push(src[i]);
        i += 1;
        assert(src@.take(i as int) =~= src@.take(i - 1) + seq![src@[i - 1]]);
    }
    assert(src@.take(i as int) =~= src@);
}

/// Appends every character of the string `src` to `dst`.
pub fn push_str(dst: &mut Vec<char>, src: &str)
    ensures
        final(dst)@ == old(dst)@ + src@,
{
    let v = str_chars(src);
    push_all(dst, &v);
}

/// Character-wise equality of two slices.
pub fn chars_eq(a: &[char], b: &[char]) -> (r: bool)
    ensures
        r == (a@ == b@),
{
    if a.len() != b.len() {
        return false;
    }
    let mut i: usize = 0;
    while i < a.len()
        invariant
            a@.len() == b@.len(),
            i <= a@.len(),
            forall|k: int| 0 <= k < i ==> a@[k] == b@[k],
        decreases a@.len() - i,
    {
        if a[i] != b[i] {
            return false;
        }
        i += 1;
    }
    assert(a@ =~= b@);
    true
}

/// Equality of a character slice with a string.
pub fn chars_eq_str(a: &[char], b: &str) -> (r: bool)
    ensures
        r == (a@ == b@),
{
    let v = str_chars(b);
    chars_eq(a, &v)
}

// ------------------------------------------------------------------
// Trimming
// ------------------------------------------------------------------

pub open spec fn seq_trim_start(s: Seq<char>) -> Seq<char>
    decreases s.len(),
{
    if s.len() > 0 && spec_is_whitespace(s[0]) {
        seq_trim_start(s.drop_first())
    } else {
        s
    }
}

pub open spec fn seq_trim_end(s: Seq<char>) -> Seq<char>
    decreases s.len(),
{
    if s.len() > 0 && spec_is_whitespace(s.last()) {
        seq_trim_end(s.drop_last())
    } else {
        s
    }
}

/// `str::trim`: whitespace removed from both ends.
pub open spec fn seq_trim(s: Seq<char>) -> Seq<char> {
    seq_trim_end(seq_trim_start(s))
}

pub proof fn lemma_trim_start_suffix(s: Seq<char>)
    ensures
        seq_trim_start(s).len() <= s.len(),
        seq_trim_start(s) =~= s.skip(s.len() - seq_trim_start(s).len()),
        seq_trim_start(s).len() > 0 ==> !spec_is_whitespace(seq_trim_start(s)[0]),
    decreases s.len(),
{
    if s.len() > 0 && spec_is_whitespace(s[0]) {
        lemma_trim_start_suffix(s.drop_first());
    }
}

pub proof fn lemma_trim_end_prefix(s: Seq<char>)
    ensures
        seq_trim_end(s).len() <= s.len(),
        seq_trim_end(s) =~= s.take(seq_trim_end(s).len() as int),
        seq_trim_end(s).len() > 0 ==> !spec_is_whitespace(seq_trim_end(s).last()),
    decreases s.len(),
{
    if s.len() > 0 && spec_is_whitespace(s.last()) {
        lemma_trim_end_prefix(s.drop_last());
    }
}

pub fn trim_start(s: &[char]) -> (r: &[char])
    ensures
        r@ == seq_trim_start(s@),
{
    let mut i: usize = 0;
    assert(s@.skip(0) =~= s@);
    while i < s.len() && is_whitespace(s[i])
        invariant
            i <= s@.len(),
            seq_trim_start(s@) == seq_trim_start(s@.skip(i as int)),
        decreases s@.len() - i,
    {
        assert(s@.skip(i as int).drop_first() =~= s@.skip(i + 1));
        i += 1;
    }
    assert(s@.skip(i as int) =~= s@.subrange(i as int, s@.len() as int));
    &s[i..s.len()]
}

pub fn trim_end(s: &[char]) -> (r: &[char])
    ensures
        r@ == seq_trim_end(s@),
{
    let mut j: usize = s.len();
    assert(s@.take(s@.len() as int) =~= s@);
    while j > 0 && is_whitespace(s[j - 1])
        invariant
            j <= s@.len(),
            seq_trim_end(s@) == seq_trim_end(s@.take(j as int)),
        decreases j,
    {
        assert(s@.take(j as int).drop_last() =~= s@.take(j - 1));
        j -= 1;
    }
    assert(s@.take(j as int) =~= s@.subrange(0, j as int));
    &s[0..j]
}

pub fn trim(s: &[char]) -> (r: &[char])
    ensures
        r@ == seq_trim(s@),
{
    trim_end(trim_start(s))
}

// ------------------------------------------------------------------
// Prefixes, suffixes, searching
// ------------------------------------------------------------------

pub open spec fn seq_starts_with(s: Seq<char>, p: Seq<char>) -> bool {
    p.len() <= s.len() && s.take(p.len() as int) == p
}

pub open spec fn seq_ends_with(s: Seq<char>, p: Seq<char>) -> bool {
    p.len() <= s.len() && s.skip(s.len() - p.len()) == p
}

/// `p` occurs in `s` starting at index `i`.
pub open spec fn seq_occurs_at(s: Seq<char>, p: Seq<char>, i: int) -> bool {
    0 <= i && i + p.len() <= s.len() && s.subrange(i, i + p.len()) == p
}

/// The first index at or after `i` where `p` occurs in `s`.
pub open spec fn seq_find_from(s: Seq<char>, p: Seq<char>, i: int) -> Option<int>
    decreases s.len() + 1 - i,
{
    if i < 0 || i + p.len() > s.len() {
        None
    } else if seq_occurs_at(s, p, i) {
        Some(i)
    } else {
        seq_find_from(s, p, i + 1)
    }
}

/// `str::find` with a string pattern: the first occurrence of `p` in `s`.
pub open spec fn seq_find(s: Seq<char>, p: Seq<char>) -> Option<int> {
    seq_find_from(s, p, 0)
}

/// The first index at or after `i` that holds `c`.
pub open spec fn seq_find_char_from(s: Seq<char>, c: char, i: int) -> Option<int>
    decreases s.len() - i,
{
    if i < 0 || i >= s.len() {
        None
    } else if s[i] == c {
        Some(i)
    } else {
        seq_find_char_from(s, c, i + 1)
    }
}

/// `str::find` with a character pattern.
pub open spec fn seq_find_char(s: Seq<char>, c: char) -> Option<int> {
    seq_find_char_from(s, c, 0)
}

pub proof fn lemma_find_char_from(s: Seq<char>, c: char, i: int)
    requires
        0 <= i <= s.len(),
    ensures
        seq_find_char_from(s, c, i) matches Some(k) ==> i <= k < s.len() && s[k] == c && forall|
            j: int,
        | i <= j < k ==> s[j] != c,
        seq_find_char_from(s, c, i) is None ==> forall|j: int| i <= j < s.len() ==> s[j] != c,
    decreases s.len() - i,
{
    if i < s.len() && s[i] != c {
        lemma_find_char_from(s, c, i + 1);
    }
}

pub proof fn lemma_find_from(s: Seq<char>, p: Seq<char>, i: int)
    requires
        0 <= i,
    ensures
        seq_find_from(s, p, i) matches Some(k) ==> i <= k && seq_occurs_at(s, p, k) && forall|
            j: int,
        | i <= j < k ==> !seq_occurs_at(s, p, j),
        seq_find_from(s, p, i) is None ==> forall|j: int| i <= j ==> !seq_occurs_at(s, p, j),
    decreases s.len() + 1 - i,
{
    if i + p.len() <= s.len() && !seq_occurs_at(s, p, i) {
        lemma_find_from(s, p, i + 1);
    }
}

pub fn starts_with(s: &[char], p: &[char]) -> (b: bool)
    ensures
        b == seq_starts_with(s@, p@),
{
    if p.len() > s.len() {
        return false;
    }
    let mut i: usize = 0;
    while i < p.len()
        invariant
            p@.len() <= s@.len(),
            i <= p@.len(),
            forall|k: int| 0 <= k < i ==> s@[k] == p@[k],
        decreases p@.len() - i,
    {
        if s[i] != p[i] {
            assert(s@.take(p@.len() as int)[i as int] != p@[i as int]);
            return false;
        }
        i += 1;
    }
    assert(s@.take(p@.len() as int) =~= p@);
    true
}

pub fn starts_with_str(s: &[char], p: &str) -> (b: bool)
    ensures
        b == seq_starts_with(s@, p@),
{
    let v = str_chars(p);
    starts_with(s, &v)
}

pub fn starts_with_char(s: &[char], c: char) -> (b: bool)
    ensures
        b == (s@.len() > 0 && s@[0] == c),
{
    s.len() > 0 && s[0] == c
}

pub fn ends_with(s: &[char], p: &[char]) -> (b: bool)
    ensures
        b == seq_ends_with(s@, p@),
{
    if p.len() > s.len() {
        return false;
    }
    let slen = s.len();
    let off = s.len() - p.len();
    let mut i: usize = 0;
    while i < p.len()
        invariant
            slen == s@.len(),
            p@.len() <= s@.len(),
            off == s@.len() - p@.len(),
            i <= p@.len(),
            forall|k: int| 0 <= k < i ==> s@[off + k] == p@[k],
        decreases p@.len() - i,
    {
        if s[off + i] != p[i] {
            assert(s@.skip(off as int)[i as int] != p@[i as int]);
            return false;
        }
        i += 1;
    }
    assert(s@.skip(off as int) =~= p@);
    true
}

pub fn ends_with_str(s: &[char], p: &str) -> (b: bool)
    ensures
        b == seq_ends_with(s@, p@),
{
    let v = str_chars(p);
    ends_with(s, &v)
}

pub fn find_char_from(s: &[char], c: char, i: usize) -> (r: Option<usize>)
    requires
        i <= s@.len(),
    ensures
        r matches Some(k) ==> seq_find_char_from(s@, c, i as int) == Some(k as int),
        r is None ==> seq_find_char_from(s@, c, i as int) is None,
{
    let mut j = i;
    while j < s.len()
        invariant
            i <= j <= s@.len(),
            seq_find_char_from(s@, c, i as int) == seq_find_char_from(s@, c, j as int),
        decreases s@.len() - j,
    {
        if s[j] == c {
            return Some(j);
        }
        j += 1;
    }
    None
}

/// `str::find` with a character pattern.
pub fn find_char(s: &[char], c: char) -> (r: Option<usize>)
    ensures
        r matches Some(k) ==> seq_find_char(s@, c) == Some(k as int),
        r is None ==> seq_find_char(s@, c) is None,
{
    find_char_from(s, c, 0)
}

/// Whether `c` occurs in `s`.
pub fn contains_char(s: &[char], c: char) -> (b: bool)
    ensures
        b == s@.contains(c),
{
    let r = find_char(s, c);
    proof {
        lemma_find_char_from(s@, c, 0);
    }
    r.is_some()
}

pub fn occurs_at(s: &[char], p: &[char], i: usize) -> (b: bool)
    ensures
        b == seq_occurs_at(s@, p@, i as int),
{
    if i > s.len() || p.len() > s.len() - i {
        return false;
    }
    let slen = s.len();
    let mut k: usize = 0;
    while k < p.len()
        invariant
            slen == s@.len(),
            i + p@.len() <= s@.len(),
            k <= p@.len(),
            forall|m: int| 0 <= m < k ==> s@[i + m] == p@[m],
        decreases p@.len() - k,
    {
        if s[i + k] != p[k] {
            assert(s@.subrange(i as int, i + p@.len())[k as int] != p@[k as int]);
            return false;
        }
        k += 1;
    }
    assert(s@.subrange(i as int, i + p@.len()) =~= p@);
    true
}

/// `str::find` with a string pattern.
pub fn find_seq(s: &[char], p: &[char]) -> (r: Option<usize>)
    ensures
        r matches Some(k) ==> seq_find(s@, p@) == Some(k as int),
        r is None ==> seq_find(s@, p@) is None,
{
    if p.len() > s.len() {
        return None;
    }
    let last = s.len() - p.len();
    let mut i: usize = 0;
    loop
        invariant
            last == s@.len() - p@.len(),
            i <= last,
            seq_find(s@, p@) == seq_find_from(s@, p@, i as int),
        decreases last - i,
    {
        if occurs_at(s, p, i) {
            return Some(i);
        }
        if i == last {
            assert(seq_find_from(s@, p@, i + 1) is None);
            return None;
        }
        i += 1;
    }
}

pub fn find_str(s: &[char], p: &str) -> (r: Option<usize>)
    ensures
        r matches Some(k) ==> seq_find(s@, p@) == Some(k as int),
        r is None ==> seq_find(s@, p@) is None,
{
    let v = str_chars(p);
    find_seq(s, &v)
}

/// The character sequences held by a vector of character vectors.
pub open spec fn views(v: Seq<Vec<char>>) -> Seq<Seq<char>> {
    v.map_values(|x: Vec<char>| x@)
}

// ------------------------------------------------------------------
// Splitting
// ------------------------------------------------------------------

/// `str::split` on a single character: the pieces between occurrences of `c`
/// (always at least one piece).
pub open spec fn seq_split(s: Seq<char>, c: char) -> Seq<Seq<char>>
    decreases s.len(),
{
    match seq_find_char(s, c) {
        None => seq![s],
        Some(k) => if 0 <= k < s.len() {
            seq![s.take(k)] + seq_split(s.skip(k + 1), c)
        } else {
            seq![s]
        },
    }
}

/// A line without its terminator: a final `'\r'` is dropped.
pub open spec fn strip_cr(t: Seq<char>) -> Seq<char> {
    if t.len() > 0 && t.last() == '\r' {
        t.drop_last()
    } else {
        t
    }
}

/// `str::lines`: lines end at `"\n"` or `"\r\n"`; the final line ending is
/// optional, and a final `'\r'` without `'\n'` stays in the last line.
pub open spec fn seq_lines(s: Seq<char>) -> Seq<Seq<char>>
    decreases s.len(),
{
    if s.len() == 0 {
        seq![]
    } else {
        match seq_find_char(s, '\n') {
            None => seq![s],
            Some(k) => if 0 <= k < s.len() {
                seq![strip_cr(s.take(k))] + seq_lines(s.skip(k + 1))
            } else {
                seq![s]
            },
        }
    }
}

/// The lines of a text that ends a line (or is empty) followed by more
/// text are the lines of each.
pub proof fn lemma_lines_concat(a: Seq<char>, b: Seq<char>)
    requires
        a.len() == 0 || a.last() == '\n',
    ensures
        seq_lines(a + b) == seq_lines(a) + seq_lines(b),
    decreases a.len(),
{
    if a.len() == 0 {
        assert(a + b =~= b);
        assert(seq_lines(a) =~= Seq::<Seq<char>>::empty());
        assert(seq_lines(a) + seq_lines(b) =~= seq_lines(b));
    } else {
        lemma_find_char_from(a, '\n', 0);
        lemma_find_char_from(a + b, '\n', 0);
        let k = seq_find_char_from(a, '\n', 0)->0;
        assert forall|j: int| 0 <= j < k implies (a + b)[j] != '\n' by {
            assert((a + b)[j] == a[j]);
        }
        assert((a + b)[k] == '\n');
        assert(seq_find_char_from(a + b, '\n', 0) == Some(k));
        assert((a + b).take(k) =~= a.take(k));
        assert((a + b).skip(k + 1) =~= a.skip(k + 1) + b);
        let a2 = a.skip(k + 1);
        assert(a2.len() == 0 || a2.last() == '\n');
        lemma_lines_concat(a2, b);
        if a2.len() == 0 {
            assert(seq_lines(a2) =~= Seq::<Seq<char>>::empty());
        }
        assert(seq_lines(a) =~= seq![strip_cr(a.take(k))] + seq_lines(a2));
        assert(seq_lines(a + b) =~= seq![strip_cr(a.take(k))] + (seq_lines(a2) + seq_lines(b)));
    }
}

pub fn split_char(s: &[char], c: char) -> (r: Vec<Vec<char>>)
    ensures
        views(r@) == seq_split(s@, c),
{
    let mut out: Vec<Vec<char>> = Vec::new();
    let mut start: usize = 0;
    assert(s@.skip(0) =~= s@);
    assert(views(out@) =~= Seq::<Seq<char>>::empty());
    loop
        invariant
            start <= s@.len(),
            seq_split(s@, c) == views(out@) + seq_split(s@.skip(start as int), c),
        decreases s@.len() - start,
    {
        let rest = &s[start..s.len()];
        assert(rest@ =~= s@.skip(start as int));
        match find_char(rest, c) {
            None => {
                let ghost before = views(out@);
                out.push(slice_to_vec_chars(rest));
                assert(views(out@) =~= before + seq![rest@]);
                assert(views(out@) =~= seq_split(s@, c));
                return out;
            },
            Some(k) => {
                proof {
                    lemma_find_char_from(rest@, c, 0);
                }
                let ghost before = views(out@);
                out.push(slice_to_vec_chars(&rest[0..k]));
                assert(rest@.skip(k + 1) =~= s@.skip(start + k + 1));
                assert(rest@.take(k as int) =~= rest@.subrange(0, k as int));
                assert(views(out@) =~= before + seq![rest@.take(k as int)]);
                start = start + k + 1;
            },
        }
    }
}

/// A vector holding the given characters.
pub fn slice_to_vec_chars(s: &[char]) -> (v: Vec<char>)
    ensures
        v@ == s@,
{
    vstd::slice::slice_to_vec(s)
}

pub fn lines(s: &[char]) -> (r: Vec<Vec<char>>)
    ensures
        views(r@) == seq_lines(s@),
{
    let mut out: Vec<Vec<char>> = Vec::new();
    let mut start: usize = 0;
    assert(s@.skip(0) =~= s@);
    assert(views(out@) =~= Seq::<Seq<char>>::empty());
    while start < s.len()
        invariant
            start <= s@.len(),
            seq_lines(s@) == views(out@) + seq_lines(s@.skip(start as int)),
        decreases s@.len() - start,
    {
        let rest = &s[start..s.len()];
        assert(rest@ =~= s@.skip(start as int));
        match find_char(rest, '\n') {
            None => {
                let ghost before = views(out@);
                out.push(slice_to_vec_chars(rest));
                assert(views(out@) =~= before + seq![rest@]);
                assert(views(out@) =~= seq_lines(s@));
                return out;
            },
            Some(k) => {
                proof {
                    lemma_find_char_from(rest@, '\n', 0);
                }
                let mut line = slice_to_vec_chars(&rest[0..k]);
                if k > 0 && rest[k - 1] == '\r' {
                    line.pop();
                }
                assert(line@ =~= strip_cr(rest@.take(k as int)));
                assert(rest@.skip(k + 1) =~= s@.skip(start + k + 1));
                let ghost before = views(out@);
                out.push(line);
                assert(views(out@) =~= before + seq![strip_cr(rest@.take(k as int))]);
                start = start + k + 1;
            },
        }
    }
    assert(s@.skip(start as int) =~= Seq::<char>::empty());
    assert(views(out@) =~= seq_lines(s@));
    out
}

} // verus!
