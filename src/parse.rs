use vstd::prelude::*;
use vstd::string::StringSliceAdditionalSpecFns;

use crate::index::{signed_index, Index};
use crate::render::{
    decimal, is_digit_char, lemma_decimal_digits, lemma_decimal_reads_back, signed_decimal,
};
use crate::slice::Slice;

verus! {

/// A slice expression that does not follow the form `[start:end:step]`.
#[derive(Debug, Clone, Copy, PartialEq, Eq, Structural)]
pub struct ParseError {
    /// The byte offset at which the text stops following the form.
    pub offset: usize,
}

/// An ASCII decimal digit.
pub open spec fn is_digit(b: u8) -> bool {
    48 <= b <= 57
}

/// How many digits follow one another from byte `p` on.
pub open spec fn digits_from(b: Seq<u8>, p: int) -> nat
    decreases b.len() - p,
{
    if 0 <= p < b.len() && is_digit(b[p]) {
        1 + digits_from(b, p + 1)
    } else {
        0
    }
}

/// The number that a run of decimal digits spells.
pub open spec fn decimal_value(d: Seq<u8>) -> int
    decreases d.len(),
{
    if d.len() == 0 {
        0
    } else {
        10 * decimal_value(d.drop_last()) + (d.last() - 48)
    }
}

/// A field from byte `p` on: an optional `-`, then optional digits, followed
/// by the byte `sep`. Gives the field's value, absent when it holds no digit,
/// and the offset after `sep`; or the offset of the failure. A magnitude
/// beyond `isize::MAX` fails where its digits start.
pub open spec fn field_spec(b: Seq<u8>, p: int, sep: u8) -> Result<(Option<int>, int), int> {
    let negative = p < b.len() && b[p] == 45;
    let q = if negative { p + 1 } else { p };
    let n = digits_from(b, q);
    let v = decimal_value(b.subrange(q, q + n));
    if n > 0 && v > isize::MAX {
        Err(q)
    } else if q + n < b.len() && b[q + n] == sep {
        Ok((if n == 0 { None } else if negative { Some(-v) } else { Some(v) }, q + n + 1))
    } else {
        Err(q + n)
    }
}

/// The index that a field names: absent is `Default`.
pub open spec fn field_index(f: Option<int>) -> Index {
    match f {
        Some(v) => signed_index(v),
        None => Index::Default,
    }
}

/// The slice that the bytes `b` spell in the form `[start:end:step]`, each
/// field an optional `-` and optional decimal digits; what follows the closing
/// `]` is not read. Or the offset at which `b` leaves that form.
pub open spec fn parse_spec(b: Seq<u8>) -> Result<Slice, ParseError> {
    if !(0 < b.len() && b[0] == 91) {
        Err(ParseError { offset: 0 })
    } else {
        match field_spec(b, 1, 58) {
            Err(e) => Err(ParseError { offset: e as usize }),
            Ok((start, p)) => match field_spec(b, p, 58) {
                Err(e) => Err(ParseError { offset: e as usize }),
                Ok((end, q)) => match field_spec(b, q, 93) {
                    Err(e) => Err(ParseError { offset: e as usize }),
                    Ok((step, _)) => Ok(
                        Slice {
                            start: field_index(start),
                            end: field_index(end),
                            step: match step {
                                Some(v) => Some(v as isize),
                                None => None,
                            },
                        },
                    ),
                },
            },
        }
    }
}

/// A run of `n` digits from byte `p` on, followed by a byte that is not a
/// digit, is what `digits_from` counts.
proof fn lemma_digits_from(b: Seq<u8>, p: int, n: int)
    requires
        0 <= p,
        0 <= n,
        p + n <= b.len(),
        forall|j: int| p <= j < p + n ==> is_digit(#[trigger] b[j]),
        !(p + n < b.len() && is_digit(b[p + n])),
    ensures
        digits_from(b, p) == n,
    decreases n,
{
    if n > 0 {
        lemma_digits_from(b, p + 1, n - 1);
    }
}

/// The run that `digits_from` counts is made of digits, fits in `b`, and
/// stops before a byte that is not one.
proof fn lemma_digits_run(b: Seq<u8>, p: int)
    requires
        0 <= p <= b.len(),
    ensures
        p + digits_from(b, p) <= b.len(),
        forall|j: int| p <= j < p + digits_from(b, p) ==> is_digit(#[trigger] b[j]),
        !(p + digits_from(b, p) < b.len() && is_digit(b[p + digits_from(b, p)])),
    decreases b.len() - p,
{
    if p < b.len() && is_digit(b[p]) {
        lemma_digits_run(b, p + 1);
    }
}

/// More digits never spell a smaller number.
proof fn lemma_decimal_prefix(d: Seq<u8>, m: int)
    requires
        0 <= m <= d.len(),
        forall|j: int| 0 <= j < d.len() ==> is_digit(#[trigger] d[j]),
    ensures
        0 <= decimal_value(d.subrange(0, m)) <= decimal_value(d),
    decreases d.len(),
{
    if m < d.len() {
        lemma_decimal_prefix(d.drop_last(), m);
        assert(d.drop_last().subrange(0, m) =~= d.subrange(0, m));
    } else {
        assert(d.subrange(0, m) =~= d);
        if d.len() > 0 {
            lemma_decimal_prefix(d.drop_last(), m - 1);
            assert(d.drop_last().subrange(0, m - 1) =~= d.drop_last());
        }
    }
}

/// The text of a field: nothing when absent, else its value in decimal.
pub open spec fn field_text(f: Option<int>) -> Seq<char> {
    match f {
        Some(v) => signed_decimal(v),
        None => Seq::empty(),
    }
}

/// The text of a field is made of digits and `-` only.
pub proof fn lemma_field_text_chars(f: Option<int>)
    ensures
        forall|j: int| 0 <= j < field_text(f).len() ==> {
            let c = #[trigger] field_text(f)[j];
            c == '-' || is_digit_char(c)
        },
{
    if let Some(v) = f {
        let n = if v < 0 { -v } else { v };
        lemma_decimal_digits(n as nat);
        if v < 0 {
            assert forall|j: int| 0 < j < field_text(f).len() implies
                is_digit_char(#[trigger] field_text(f)[j]) by {
                assert(field_text(f)[j] == decimal(n as nat)[j - 1]);
            }
        }
    }
}

/// The bytes of a field's text, followed by a separator that is neither a
/// digit nor `-`, read back as the field.
pub proof fn lemma_field_reads_back(b: Seq<u8>, p: int, f: Option<int>, sep: u8)
    requires
        0 <= p,
        p + field_text(f).len() < b.len(),
        forall|j: int| 0 <= j < field_text(f).len() ==> b[p + j] == #[trigger] field_text(f)[j] as u8,
        b[p + field_text(f).len()] == sep,
        !is_digit(sep),
        sep != 45,
        f matches Some(v) ==> -isize::MAX <= v <= isize::MAX,
    ensures
        field_spec(b, p, sep) == Ok::<(Option<int>, int), int>((f, p + field_text(f).len() + 1)),
{
    let t = field_text(f);
    match f {
        None => {
            assert(digits_from(b, p) == 0);
        },
        Some(v) => {
            let n = if v < 0 { -v } else { v };
            let d = decimal(n as nat);
            let q = if v < 0 { p + 1 } else { p };
            lemma_decimal_digits(n as nat);
            let m = d.len() as int;
            assert forall|j: int| 0 <= j < m implies b[q + j] == #[trigger] d[j] as u8 by {
                if v < 0 {
                    assert(t[j + 1] == d[j]);
                    assert(b[p + (j + 1)] == t[j + 1] as u8);
                } else {
                    assert(b[p + j] == t[j] as u8);
                }
            }
            assert forall|j: int| q <= j < q + m implies is_digit(#[trigger] b[j]) by {
                assert(b[q + (j - q)] == d[j - q] as u8);
                assert(is_digit_char(d[j - q]));
            }
            if v < 0 {
                assert(b[p + 0] == t[0] as u8);
            } else {
                assert(b[p + 0] == d[0] as u8);
                assert(is_digit_char(d[0]));
            }
            lemma_digits_from(b, q, m);
            let digits = b.subrange(q, q + m);
            assert forall|j: int| 0 <= j < digits.len() implies digits[j] == #[trigger] d[j] as u8 by {
                assert(b[q + j] == d[j] as u8);
            }
            lemma_decimal_reads_back(n as nat, digits);
        },
    }
}

/// Reads the field that starts at byte `p` and the byte `sep` after it.
fn parse_field(b: &[u8], p: usize, sep: u8) -> (r: Result<(Option<isize>, usize), ParseError>)
    requires
        p <= b@.len(),
    ensures
        match field_spec(b@, p as int, sep) {
            Ok((f, next)) => r matches Ok((g, after)) && after == next && f == (match g {
                Some(v) => Some(v as int),
                None => None,
            }),
            Err(e) => r == Err::<(Option<isize>, usize), ParseError>(ParseError { offset: e as usize }),
        },
{
    let negative = p < b.len() && b[p] == 45u8;
    let q = if negative { p + 1 } else { p };
    let mut i = q;
    let mut v: i128 = 0;
    while i < b.len() && 48u8 <= b[i] && b[i] <= 57u8
        invariant
            negative == (p < b@.len() && b@[p as int] == 45),
            q == if negative { p + 1 } else { p as int },
            q <= i <= b@.len(),
            forall|j: int| q <= j < i ==> is_digit(#[trigger] b@[j]),
            v == decimal_value(b@.subrange(q as int, i as int)),
            0 <= v <= isize::MAX,
        decreases b@.len() - i,
    {
        let nv = v * 10 + (b[i] - 48u8) as i128;
        proof {
            assert(b@.subrange(q as int, i + 1).drop_last() =~= b@.subrange(q as int, i as int));
            assert(decimal_value(b@.subrange(q as int, i + 1)) == nv);
        }
        if nv > isize::MAX as i128 {
            proof {
                // The whole run reaches past `i` and spells at least `nv`.
                lemma_digits_run(b@, q as int);
                let n = digits_from(b@, q as int);
                if q + n <= i {
                    assert(is_digit(b@[q + n]));
                }
                assert(q + n > i);
                let d = b@.subrange(q as int, q + n);
                lemma_decimal_prefix(d, i + 1 - q);
                assert(d.subrange(0, i + 1 - q) =~= b@.subrange(q as int, i + 1));
                assert(decimal_value(d) > isize::MAX);
            }
            return Err(ParseError { offset: q });
        }
        v = nv;
        i = i + 1;
    }
    proof {
        lemma_digits_run(b@, q as int);
        let n = digits_from(b@, q as int);
        if q + n < i {
            assert(is_digit(b@[q + n]));
        }
        if q + n > i {
            assert(is_digit(b@[i as int]));
        }
        assert(n == i - q);
    }
    if i < b.len() && b[i] == sep {
        let f = if i == q {
            None
        } else if negative {
            Some(-(v as isize))
        } else {
            Some(v as isize)
        };
        Ok((f, i + 1))
    } else {
        Err(ParseError { offset: i })
    }
}

/// Reads a slice expression of the form `[start:end:step]`: each field an
/// optional `-` and optional decimal digits whose magnitude fits an `isize`,
/// an empty field standing for an absent one. A negative field counts from the
/// back. What follows the closing `]` is not read.
pub fn parse(input: &str) -> (r: Result<Slice, ParseError>)
    ensures
        r == parse_spec(input.spec_bytes()),
{
    let b = input.as_bytes();
    if !(0 < b.len() && b[0] == 91u8) {
        return Err(ParseError { offset: 0 });
    }
    let (start, p) = match parse_field(b, 1, 58u8) {
        Ok(f) => f,
        Err(e) => return Err(e),
    };
    let (end, q) = match parse_field(b, p, 58u8) {
        Ok(f) => f,
        Err(e) => return Err(e),
    };
    let (step, _) = match parse_field(b, q, 93u8) {
        Ok(f) => f,
        Err(e) => return Err(e),
    };
    Ok(Slice { start: Index::from(start), end: Index::from(end), step })
}

} // verus!
