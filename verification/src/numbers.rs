//! Decimal numerals: rendering a line number as text (as `usize::to_string`
//! does) and reading it back (as `str::parse::<usize>` does).
use vstd::prelude::*;
use crate::text::spec_is_ascii_digit;

verus! {

pub open spec fn digit_char(d: nat) -> char {
    if d == 0 {
        '0'
    } else if d == 1 {
        '1'
    } else if d == 2 {
        '2'
    } else if d == 3 {
        '3'
    } else if d == 4 {
        '4'
    } else if d == 5 {
        '5'
    } else if d == 6 {
        '6'
    } else if d == 7 {
        '7'
    } else if d == 8 {
        '8'
    } else {
        '9'
    }
}

pub open spec fn digit_value(c: char) -> nat {
    ((c as u32) - ('0' as u32)) as nat
}

/// The decimal numeral of `n`, without leading zeros.
pub open spec fn spec_decimal(n: nat) -> Seq<char>
    decreases n,
{
    if n < 10 {
        seq![digit_char(n)]
    } else {
        spec_decimal(n / 10).push(digit_char(n % 10))
    }
}

pub fn digit(d: usize) -> (c: char)
    requires
        d < 10,
    ensures
        c == digit_char(d as nat),
{
    if d == 0 {
        '0'
    } else if d == 1 {
        '1'
    } else if d == 2 {
        '2'
    } else if d == 3 {
        '3'
    } else if d == 4 {
        '4'
    } else if d == 5 {
        '5'
    } else if d == 6 {
        '6'
    } else if d == 7 {
        '7'
    } else if d == 8 {
        '8'
    } else {
        '9'
    }
}

/// `usize::to_string`.
pub fn decimal(n: usize) -> (r: Vec<char>)
    ensures
        r@ == spec_decimal(n as nat),
    decreases n,
{
    if n < 10 {
        let mut v: Vec<char> = Vec::new();
        v.push(digit(n));
        assert(v@ =~= seq![digit_char(n as nat)]);
        v
    } else {
        let mut v = decimal(n / 10);
        v.push(digit(n % 10));
        v
    }
}

/// The value of a sequence of decimal digits (most significant first).
pub open spec fn digits_value(d: Seq<char>) -> nat
    decreases d.len(),
{
    if d.len() == 0 {
        0
    } else {
        digits_value(d.drop_last()) * 10 + digit_value(d.last())
    }
}

pub open spec fn all_digits(d: Seq<char>) -> bool {
    forall|i: int| 0 <= i < d.len() ==> spec_is_ascii_digit(#[trigger] d[i])
}

pub open spec fn parse_digits(d: Seq<char>) -> Option<nat> {
    if d.len() > 0 && all_digits(d) && digits_value(d) <= usize::MAX {
        Some(digits_value(d))
    } else {
        None
    }
}

/// `str::parse::<usize>`: an optional `+` followed by one or more decimal
/// digits, whose value fits in `usize`.
pub open spec fn spec_parse_usize(s: Seq<char>) -> Option<nat> {
    if s.len() == 0 {
        None
    } else if s[0] == '+' {
        if s.len() == 1 {
            None
        } else {
            parse_digits(s.drop_first())
        }
    } else {
        parse_digits(s)
    }
}

proof fn lemma_digits_value_monotone(d: Seq<char>, k: int)
    requires
        0 <= k <= d.len(),
        all_digits(d),
    ensures
        digits_value(d.take(k)) <= digits_value(d),
    decreases d.len() - k,
{
    if k < d.len() {
        lemma_digits_value_monotone(d, k + 1);
        assert(d.take(k + 1).drop_last() =~= d.take(k));
    } else {
        assert(d.take(k) =~= d);
    }
}

pub fn parse_usize(s: &[char]) -> (r: Option<usize>)
    ensures
        r matches Some(v) ==> spec_parse_usize(s@) == Some(v as nat),
        r is None ==> spec_parse_usize(s@) is None,
{
    if s.len() == 0 {
        return None;
    }
    let mut start: usize = 0;
    if s[0] == '+' {
        if s.len() == 1 {
            return None;
        }
        start = 1;
    }
    let d = &s[start..s.len()];
    assert(s[0] == '+' ==> d@ =~= s@.drop_first());
    assert(s[0] != '+' ==> d@ =~= s@);
    let mut value: usize = 0;
    let mut i: usize = 0;
    assert(d@.take(0) =~= Seq::<char>::empty());
    assert(spec_parse_usize(s@) == parse_digits(d@));
    while i < d.len()
        invariant
            spec_parse_usize(s@) == parse_digits(d@),
            d@.len() > 0,
            i <= d@.len(),
            all_digits(d@.take(i as int)),
            value as nat == digits_value(d@.take(i as int)),
        decreases d@.len() - i,
    {
        let c = d[i];
        assert(d@.take(i + 1).drop_last() =~= d@.take(i as int));
        if !('0' <= c && c <= '9') {
            assert(!all_digits(d@));
            return None;
        }
        let dv = (c as u32 - '0' as u32) as usize;
        if value > (usize::MAX - dv) / 10 {
            proof {
                assert(value * 10 + dv > usize::MAX) by (nonlinear_arith)
                    requires
                        value > (usize::MAX - dv) / 10,
                        dv <= 9,
                ;
                if all_digits(d@) {
                    lemma_digits_value_monotone(d@, i + 1);
                }
            }
            return None;
        }
        proof {
            assert(value * 10 + dv <= usize::MAX) by (nonlinear_arith)
                requires
                    value <= (usize::MAX - dv) / 10,
                    dv <= 9,
            ;
        }
        value = value * 10 + dv;
        i += 1;
    }
    assert(d@.take(d@.len() as int) =~= d@);
    Some(value)
}

/// Reading back a rendered number gives the number.
pub proof fn lemma_parse_decimal(n: nat)
    requires
        n <= usize::MAX,
    ensures
        spec_parse_usize(spec_decimal(n)) == Some(n),
{
    lemma_decimal_digits(n);
    assert(spec_decimal(n)[0] != '+');
}

proof fn lemma_digit_char(d: nat)
    requires
        d < 10,
    ensures
        digit_value(digit_char(d)) == d,
        spec_is_ascii_digit(digit_char(d)),
{
}

/// A rendered number is a non-empty run of digits with that value.
pub proof fn lemma_decimal_digits(n: nat)
    ensures
        spec_decimal(n).len() > 0,
        all_digits(spec_decimal(n)),
        digits_value(spec_decimal(n)) == n,
    decreases n,
{
    if n < 10 {
        lemma_digit_char(n);
        let d = spec_decimal(n);
        assert(d.drop_last() =~= Seq::<char>::empty());
        assert(digits_value(d.drop_last()) == 0);
        assert(d.last() == digit_char(n));
    } else {
        lemma_digit_char(n % 10);
        assert(n == (n / 10) * 10 + n % 10) by (nonlinear_arith);
        lemma_decimal_digits(n / 10);
        let d = spec_decimal(n);
        assert(d.drop_last() =~= spec_decimal(n / 10));
        assert(d.last() == digit_char(n % 10));
        assert(digits_value(d) == digits_value(d.drop_last()) * 10 + digit_value(d.last()));
        assert forall|i: int| 0 <= i < d.len() implies spec_is_ascii_digit(#[trigger] d[i]) by {
            if i < d.len() - 1 {
                assert(d[i] == spec_decimal(n / 10)[i]);
            }
        }
    }
}

} // verus!
