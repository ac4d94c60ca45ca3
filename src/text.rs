//! Reading decimal integers and separated fields from text.
use vstd::prelude::*;

verus! {

/// Why a piece of text was refused.
#[derive(Debug, Clone, Copy, PartialEq, Eq, Structural)]
pub enum ParseError {
    /// A field is not a decimal integer that fits the target type.
    InvalidInteger,
    /// A wire segment is not one of `L`, `R`, `U`, `D` followed by a
    /// length, or the wire is longer than `i32::MAX` steps.
    InvalidWire,
    /// A line does not have the expected number of fields.
    MalformedLine,
}

pub open spec fn is_digit(c: u8) -> bool {
    48 <= c <= 57
}

/// A non-empty run of decimal digits.
pub open spec fn all_digits(d: Seq<u8>) -> bool {
    d.len() > 0 && forall|i: int| 0 <= i < d.len() ==> is_digit(#[trigger] d[i])
}

/// The number that a run of decimal digits spells.
pub open spec fn digits_value(d: Seq<u8>) -> int
    decreases d.len(),
{
    if d.len() == 0 {
        0
    } else {
        digits_value(d.drop_last()) * 10 + (d.last() - 48)
    }
}

/// The integer that `t` spells: an optional sign, then decimal digits.
pub open spec fn integer_value(t: Seq<u8>) -> Option<int> {
    if t.len() > 0 && t[0] == 45 && all_digits(t.drop_first()) {
        Some(-digits_value(t.drop_first()))
    } else if t.len() > 0 && t[0] == 43 && all_digits(t.drop_first()) {
        Some(digits_value(t.drop_first()))
    } else if all_digits(t) {
        Some(digits_value(t))
    } else {
        None
    }
}

/// The integer that `t` spells, where it fits between `lo` and `hi`.
pub open spec fn integer_in(t: Seq<u8>, lo: int, hi: int) -> Option<int> {
    match integer_value(t) {
        Some(v) => if lo <= v <= hi {
            Some(v)
        } else {
            None
        },
        None => None,
    }
}

/// The lines of `b`: the fields between line breaks, less an empty last one.
pub open spec fn text_lines(b: Seq<u8>) -> Seq<Seq<u8>> {
    let f = split_fields(b, 10);
    if f.last().len() == 0 {
        f.drop_last()
    } else {
        f
    }
}

/// The fields of `b` between the separators `sep`, left to right; text
/// without a separator is one field.
pub open spec fn split_fields(b: Seq<u8>, sep: u8) -> Seq<Seq<u8>>
    decreases b.len(),
{
    if b.len() == 0 {
        seq![Seq::empty()]
    } else {
        let f = split_fields(b.drop_last(), sep);
        if b.last() == sep {
            f.push(Seq::empty())
        } else {
            f.update(f.len() - 1, f.last().push(b.last()))
        }
    }
}

pub proof fn lemma_split_fields_nonempty(b: Seq<u8>, sep: u8)
    ensures
        split_fields(b, sep).len() >= 1,
    decreases b.len(),
{
    if b.len() > 0 {
        lemma_split_fields_nonempty(b.drop_last(), sep);
    }
}

/// Extending digits never lowers the value.
pub proof fn lemma_digits_value_grows(d: Seq<u8>, n: int)
    requires
        0 <= n <= d.len(),
        forall|i: int| 0 <= i < d.len() ==> is_digit(#[trigger] d[i]),
    ensures
        0 <= digits_value(d.subrange(0, n)) <= digits_value(d),
    decreases d.len(),
{
    if d.len() > 0 {
        if n == d.len() {
            assert(d.subrange(0, n) =~= d);
            lemma_digits_value_grows(d.drop_last(), 0);
            assert(d.drop_last().subrange(0, 0) =~= d.subrange(0, 0));
        } else {
            lemma_digits_value_grows(d.drop_last(), n);
            assert(d.drop_last().subrange(0, n) =~= d.subrange(0, n));
        }
    }
}

/// The magnitude that the digits `b[start..end]` spell, where it is at most `limit`.
fn digits_at_most(b: &[u8], start: usize, end: usize, limit: u64) -> (r: Option<u64>)
    requires
        start <= end <= b@.len(),
    ensures
        match r {
            Some(m) => all_digits(b@.subrange(start as int, end as int)) && m == digits_value(
                b@.subrange(start as int, end as int),
            ) && m <= limit,
            None => !all_digits(b@.subrange(start as int, end as int)) || digits_value(
                b@.subrange(start as int, end as int),
            ) > limit,
        },
{
    if start == end {
        return None;
    }
    let ghost t = b@.subrange(start as int, end as int);
    let mut m: u64 = 0;
    let mut i: usize = start;
    while i < end
        invariant
            start <= i <= end <= b@.len(),
            t == b@.subrange(start as int, end as int),
            forall|k: int| start <= k < i ==> is_digit(#[trigger] b@[k]),
            m == digits_value(b@.subrange(start as int, i as int)),
            m <= limit,
        decreases end - i,
    {
        let c = b[i];
        if c < 48 || c > 57 {
            assert(!is_digit(t[i - start]));
            return None;
        }
        let d = (c - 48) as u64;
        let ghost p = b@.subrange(start as int, i as int + 1);
        assert(p.drop_last() =~= b@.subrange(start as int, i as int));
        if d > limit || m > (limit - d) / 10 {
            assert(m * 10 + d > limit) by (nonlinear_arith)
                requires
                    d > limit || m > (limit - d) / 10,
                    limit >= 0,
            ;
            proof {
                if all_digits(t) {
                    lemma_digits_value_grows(t, i - start + 1);
                    assert(t.subrange(0, i - start + 1) =~= p);
                }
            }
            return None;
        }
        assert(m * 10 + d <= limit) by (nonlinear_arith)
            requires
                d <= limit,
                m <= (limit - d) / 10,
        ;
        m = m * 10 + d;
        i = i + 1;
    }
    assert(t =~= b@.subrange(start as int, i as int));
    Some(m)
}

/// The integer that `b[start..end]` spells, where it lies between `lo` and `hi`.
pub fn parse_integer(b: &[u8], start: usize, end: usize, lo: i64, hi: i64) -> (r: Option<i64>)
    requires
        start <= end <= b@.len(),
    ensures
        match integer_in(b@.subrange(start as int, end as int), lo as int, hi as int) {
            Some(v) => r == Some(v as i64),
            None => r is None,
        },
{
    let ghost t = b@.subrange(start as int, end as int);
    if start < end && (b[start] == 45 || b[start] == 43) {
        let negative = b[start] == 45;
        assert(t.drop_first() =~= b@.subrange(start + 1, end as int));
        let limit: u64 = if negative {
            if lo >= 0 {
                0
            } else {
                ((-(lo + 1)) as u64) + 1
            }
        } else {
            if hi < 0 {
                0
            } else {
                hi as u64
            }
        };
        match digits_at_most(b, start + 1, end, limit) {
            None => {
                assert(!all_digits(t));
                None
            },
            Some(m) => {
                assert(!all_digits(t));
                if negative {
                    if lo >= 0 && m > 0 {
                        None
                    } else if (m as i128) - (lo as i128) >= 0 && -(m as i128) <= hi as i128 {
                        Some((-(m as i128)) as i64)
                    } else {
                        None
                    }
                } else if hi >= 0 && (m as i128) >= lo as i128 {
                    Some(m as i64)
                } else {
                    None
                }
            },
        }
    } else {
        let limit: u64 = if hi < 0 {
            0
        } else {
            hi as u64
        };
        match digits_at_most(b, start, end, limit) {
            None => None,
            Some(m) => if hi >= 0 && (m as i128) >= lo as i128 {
                Some(m as i64)
            } else {
                None
            },
        }
    }
}

/// The positions of the fields of `b[start..end]` between the separators `sep`.
pub fn field_bounds(b: &[u8], start: usize, end: usize, sep: u8) -> (r: Vec<(usize, usize)>)
    requires
        start <= end <= b@.len(),
    ensures
        r@.len() == split_fields(b@.subrange(start as int, end as int), sep).len(),
        forall|i: int|
            0 <= i < r@.len() ==> start <= (#[trigger] r@[i]).0 <= r@[i].1 <= end && b@.subrange(
                r@[i].0 as int,
                r@[i].1 as int,
            ) == split_fields(b@.subrange(start as int, end as int), sep)[i],
{
    let mut r: Vec<(usize, usize)> = Vec::new();
    let mut field_start: usize = start;
    let mut i: usize = start;
    assert(b@.subrange(start as int, start as int) =~= Seq::<u8>::empty());
    while i < end
        invariant
            start <= field_start <= i <= end <= b@.len(),
            split_fields(b@.subrange(start as int, i as int), sep).len() == r@.len() + 1,
            split_fields(b@.subrange(start as int, i as int), sep).last() == b@.subrange(
                field_start as int,
                i as int,
            ),
            forall|k: int|
                0 <= k < r@.len() ==> start <= (#[trigger] r@[k]).0 <= r@[k].1 <= field_start
                    && b@.subrange(r@[k].0 as int, r@[k].1 as int) == split_fields(
                    b@.subrange(start as int, i as int),
                    sep,
                )[k],
        decreases end - i,
    {
        let ghost before = split_fields(b@.subrange(start as int, i as int), sep);
        assert(b@.subrange(start as int, i + 1).drop_last() =~= b@.subrange(start as int, i as int));
        if b[i] == sep {
            r.push((field_start, i));
            field_start = i + 1;
            assert(b@.subrange(field_start as int, field_start as int) =~= Seq::<u8>::empty());
        } else {
            assert(b@.subrange(field_start as int, i + 1) =~= b@.subrange(
                field_start as int,
                i as int,
            ).push(b@[i as int]));
        }
        i = i + 1;
    }
    r.push((field_start, end));
    r
}

} // verus!
