//! Digit rules for six-digit passwords.
use vstd::prelude::*;
use vstd::string::StringSliceAdditionalSpecFns;

use crate::text::{field_bounds, integer_in, parse_integer, split_fields, ParseError};

verus! {

/// The decimal digits of `n`, most significant first; none for 0.
pub open spec fn digits(n: nat) -> Seq<int>
    decreases n,
{
    if n == 0 {
        Seq::empty()
    } else {
        digits(n / 10).push((n % 10) as int)
    }
}

/// Each digit is at least the one before it.
pub open spec fn non_decreasing(s: Seq<int>) -> bool {
    forall|i: int| 0 < i < s.len() ==> s[i - 1] <= #[trigger] s[i]
}

/// Some two neighbouring digits are equal.
pub open spec fn has_adjacent_equal(s: Seq<int>) -> bool {
    exists|i: int| 0 < i < s.len() && s[i - 1] == #[trigger] s[i]
}

/// Positions `i` and `i + 1` hold a run of exactly two equal digits.
pub open spec fn exact_pair_at(s: Seq<int>, i: int) -> bool {
    &&& 0 <= i && i + 1 < s.len()
    &&& s[i] == s[i + 1]
    &&& i == 0 || s[i - 1] != s[i]
    &&& i + 2 == s.len() || s[i + 2] != s[i]
}

/// Some run of equal digits has length exactly two.
pub open spec fn has_exact_pair(s: Seq<int>) -> bool {
    exists|i: int| #[trigger] exact_pair_at(s, i)
}

proof fn lemma_digits_step(n: nat)
    requires
        n > 0,
    ensures
        digits(n) == digits(n / 10).push((n % 10) as int),
        digits(n / 10).len() == 0 <==> n / 10 == 0,
        n / 10 > 0 ==> digits(n / 10).last() == (n / 10) % 10,
{
    let m = n / 10;
    if m > 0 {
        assert(digits(m) == digits(m / 10).push((m % 10) as int));
    }
}

pub fn last_digit(n: u32) -> (r: u32)
    ensures
        r == n % 10,
{
    n % 10
}

pub fn last_but_one_digit(n: u32) -> (r: u32)
    ensures
        r == (n / 10) % 10,
{
    (n / 10) % 10
}

/// Whether the digits of `n` never decrease from left to right.
pub fn digits_never_decrease(n: u32) -> (r: bool)
    ensures
        r == non_decreasing(digits(n as nat)),
    decreases n,
{
    if n == 0 {
        true
    } else {
        proof {
            lemma_digits_step(n as nat);
            let s = digits(n as nat / 10);
            let t = digits(n as nat);
            if non_decreasing(t) {
                assert forall|i: int| 0 < i < s.len() implies s[i - 1] <= #[trigger] s[i] by {
                    assert(t[i] == s[i] && t[i - 1] == s[i - 1]);
                }
                if s.len() > 0 {
                    assert(t[s.len() as int] == n % 10);
                }
            }
        }
        (last_digit(n) >= last_but_one_digit(n)) && digits_never_decrease(n / 10)
    }
}

/// Whether two neighbouring digits of `n` are equal.
pub fn has_double_digits(n: u32) -> (r: bool)
    ensures
        r == has_adjacent_equal(digits(n as nat)),
    decreases n,
{
    if n == 0 {
        false
    } else {
        proof {
            lemma_digits_step(n as nat);
            let s = digits(n as nat / 10);
            let t = digits(n as nat);
            if has_adjacent_equal(s) {
                let i = choose|i: int| 0 < i < s.len() && s[i - 1] == #[trigger] s[i];
                assert(t[i - 1] == t[i]);
            }
            if s.len() > 0 && s.last() == n % 10 {
                assert(t[s.len() - 1] == t[s.len() as int]);
            }
            if has_adjacent_equal(t) {
                let i = choose|i: int| 0 < i < t.len() && t[i - 1] == #[trigger] t[i];
                if i < s.len() {
                    assert(s[i - 1] == s[i]);
                }
            }
        }
        (last_digit(n) == last_but_one_digit(n)) || has_double_digits(n / 10)
    }
}

/// The decimal digits of `n`, most significant first; none for 0.
pub fn decimal_digits(n: u32) -> (r: Vec<u32>)
    ensures
        r@.len() == digits(n as nat).len(),
        forall|i: int| 0 <= i < r@.len() ==> r@[i] == #[trigger] digits(n as nat)[i],
    decreases n,
{
    if n == 0 {
        Vec::new()
    } else {
        proof {
            lemma_digits_step(n as nat);
        }
        let mut r = decimal_digits(n / 10);
        r.push(last_digit(n));
        r
    }
}

/// Whether `n` holds a run of exactly two equal digits.
pub fn has_pair_of_digits(n: u32) -> (r: bool)
    ensures
        r == has_exact_pair(digits(n as nat)),
{
    let d = decimal_digits(n);
    let ghost s = digits(n as nat);
    let mut i: usize = 0;
    while d.len() > 0 && i < d.len() - 1
        invariant
            s == digits(n as nat),
            d@.len() == s.len(),
            forall|k: int| 0 <= k < d@.len() ==> d@[k] == #[trigger] s[k],
            forall|j: int| 0 <= j < i ==> !#[trigger] exact_pair_at(s, j),
        decreases d@.len() - i,
    {
        if d[i] == d[i + 1] && (i == 0 || d[i - 1] != d[i]) && (i + 2 == d.len() || d[i + 2]
            != d[i]) {
            assert(exact_pair_at(s, i as int));
            return true;
        }
        i = i + 1;
    }
    assert forall|j: int| !#[trigger] exact_pair_at(s, j) by {
        if 0 <= j < i {
        }
    }
    false
}

/// Whether `n` meets the password rules: digits that never decrease, and a
/// pair of equal neighbouring digits (with `exact_pair`, a run of exactly two).
pub open spec fn is_password(n: nat, exact_pair: bool) -> bool {
    non_decreasing(digits(n)) && if exact_pair {
        has_exact_pair(digits(n))
    } else {
        has_adjacent_equal(digits(n))
    }
}

/// How many numbers from `start` up to, not including, `end` meet the rules.
pub open spec fn password_count(start: int, end: int, exact_pair: bool) -> int
    decreases end - start,
{
    if end <= start {
        0
    } else {
        password_count(start, end - 1, exact_pair) + if is_password((end - 1) as nat, exact_pair) {
            1int
        } else {
            0int
        }
    }
}

/// How many numbers from `start` to `end`, both included, meet the password rules.
pub fn count_passwords(start: u32, end: u32, exact_pair: bool) -> (r: u64)
    ensures
        r == password_count(start as int, end + 1, exact_pair),
{
    let mut count: u64 = 0;
    let mut n: u64 = start as u64;
    let last: u64 = end as u64 + 1;
    if last <= n {
        return 0;
    }
    while n < last
        invariant
            start <= n <= last,
            last == end + 1,
            count == password_count(start as int, n as int, exact_pair),
            count <= n - start,
        decreases last - n,
    {
        let m = n as u32;
        let ok = digits_never_decrease(m) && if exact_pair {
            has_pair_of_digits(m)
        } else {
            has_double_digits(m)
        };
        if ok {
            count = count + 1;
        }
        n = n + 1;
    }
    count
}

/// The range that text such as `183564-657474` spells.
pub open spec fn range_of(text: Seq<u8>) -> Option<(int, int)> {
    let f = split_fields(text, 45);
    if f.len() == 2 {
        match (integer_in(f[0], 0, u32::MAX as int), integer_in(f[1], 0, u32::MAX as int)) {
            (Some(a), Some(b)) => Some((a, b)),
            _ => None,
        }
    } else {
        None
    }
}

/// The two bounds of a range written `START-END`.
pub fn parse_range(text: &str) -> (r: Result<(u32, u32), ParseError>)
    ensures
        match range_of(text.spec_bytes()) {
            Some((a, b)) => r == Ok::<(u32, u32), ParseError>((a as u32, b as u32)),
            None => r == Err::<(u32, u32), ParseError>(ParseError::InvalidInteger),
        },
{
    let b = text.as_bytes();
    assert(b@.subrange(0, b@.len() as int) =~= b@);
    let fields = field_bounds(b, 0, b.len(), 45);
    if fields.len() != 2 {
        return Err(ParseError::InvalidInteger);
    }
    let lo = parse_integer(b, fields[0].0, fields[0].1, 0, 4294967295);
    let hi = parse_integer(b, fields[1].0, fields[1].1, 0, 4294967295);
    match (lo, hi) {
        (Some(a), Some(c)) => Ok((a as u32, c as u32)),
        _ => Err(ParseError::InvalidInteger),
    }
}

} // verus!
