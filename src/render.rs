use vstd::prelude::*;
use vstd::string::StringExecFns;

use crate::index::Index;
use crate::slice::Slice;

verus! {

/// The character of a decimal digit `d < 10`.
pub open spec fn digit_char(d: nat) -> char {
    ((d + 48) as u8) as char
}

/// The decimal digits of `n`, most significant first, without leading zeros.
pub open spec fn decimal(n: nat) -> Seq<char>
    decreases n,
{
    if n < 10 {
        seq![digit_char(n)]
    } else {
        decimal(n / 10).push(digit_char(n % 10))
    }
}

/// `n` in decimal, with a leading `-` when negative.
pub open spec fn signed_decimal(n: int) -> Seq<char> {
    if n < 0 {
        seq!['-'] + decimal((-n) as nat)
    } else {
        decimal(n as nat)
    }
}

/// An index as text: `n` for `Head(n)`, `-n` for `Tail(n)`, nothing for
/// `Default`.
pub open spec fn index_text(i: Index) -> Seq<char> {
    match i {
        Index::Head(n) => decimal(n as nat),
        Index::Tail(n) => seq!['-'] + decimal(n as nat),
        Index::Default => Seq::empty(),
    }
}

/// A slice as text: `[start:end:step]`, an absent field left empty.
pub open spec fn slice_text(s: Slice) -> Seq<char> {
    let step = match s.step {
        Some(n) => signed_decimal(n as int),
        None => Seq::empty(),
    };
    seq!['['] + index_text(s.start) + seq![':'] + index_text(s.end) + seq![':'] + step + seq![']']
}

/// The one-character text of the digit `d`.
fn digit_str(d: u128) -> (r: &'static str)
    requires
        d < 10,
    ensures
        r@ == seq![digit_char(d as nat)],
{
    proof {
        reveal_strlit("0");
        reveal_strlit("1");
        reveal_strlit("2");
        reveal_strlit("3");
        reveal_strlit("4");
        reveal_strlit("5");
        reveal_strlit("6");
        reveal_strlit("7");
        reveal_strlit("8");
        reveal_strlit("9");
    }
    match d {
        0 => "0",
        1 => "1",
        2 => "2",
        3 => "3",
        4 => "4",
        5 => "5",
        6 => "6",
        7 => "7",
        8 => "8",
        _ => "9",
    }
}

/// Appends the decimal digits of `n` to `out`.
fn push_decimal(out: &mut String, n: u128)
    ensures
        final(out)@ == old(out)@ + decimal(n as nat),
    decreases n,
{
    if n >= 10 {
        push_decimal(out, n / 10);
    }
    out.append(digit_str(n % 10));
    assert(final(out)@ =~= old(out)@ + decimal(n as nat));
}

impl Index {
    /// The index as text: `n` for `Head(n)`, `-n` for `Tail(n)`, empty for
    /// `Default`.
    pub fn to_string(&self) -> (r: String)
        ensures
            r@ == index_text(*self),
    {
        let mut out = String::new();
        self.push_to(&mut out);
        out
    }

    fn push_to(&self, out: &mut String)
        ensures
            final(out)@ == old(out)@ + index_text(*self),
    {
        proof {
            reveal_strlit("-");
        }
        match *self {
            Index::Head(n) => push_decimal(out, n as u128),
            Index::Tail(n) => {
                out.append("-");
                push_decimal(out, n as u128);
            },
            Index::Default => {},
        }
        assert(final(out)@ =~= old(out)@ + index_text(*self));
    }
}

impl Slice {
    /// The slice as text, in the form `[start:end:step]`.
    pub fn to_string(&self) -> (r: String)
        ensures
            r@ == slice_text(*self),
    {
        proof {
            reveal_strlit("[");
            reveal_strlit(":");
            reveal_strlit("]");
            reveal_strlit("-");
        }
        let mut out = String::new();
        out.append("[");
        self.start.push_to(&mut out);
        out.append(":");
        self.end.push_to(&mut out);
        out.append(":");
        match self.step {
            Some(n) => {
                if n < 0 {
                    out.append("-");
                    push_decimal(&mut out, (-(n as i128)) as u128);
                } else {
                    push_decimal(&mut out, n as u128);
                }
            },
            None => {},
        }
        out.append("]");
        assert(out@ =~= slice_text(*self));
        out
    }
}

} // verus!

verus! {

/// An ASCII decimal digit character.
pub open spec fn is_digit_char(c: char) -> bool {
    '0' <= c <= '9'
}

/// The decimal text of `n` is a non-empty run of digit characters.
pub proof fn lemma_decimal_digits(n: nat)
    ensures
        decimal(n).len() >= 1,
        forall|j: int| 0 <= j < decimal(n).len() ==> is_digit_char(#[trigger] decimal(n)[j]),
    decreases n,
{
    if n >= 10 {
        lemma_decimal_digits(n / 10);
        assert forall|j: int| 0 <= j < decimal(n).len() implies is_digit_char(#[trigger] decimal(n)[j]) by {
            if j < decimal(n / 10).len() {
                assert(decimal(n)[j] == decimal(n / 10)[j]);
            }
        }
    }
}

/// The decimal text of `n`, read back as bytes, spells `n`.
pub proof fn lemma_decimal_reads_back(n: nat, b: Seq<u8>)
    requires
        b.len() == decimal(n).len(),
        forall|j: int| 0 <= j < b.len() ==> b[j] == #[trigger] decimal(n)[j] as u8,
    ensures
        crate::parse::decimal_value(b) == n,
    decreases n,
{
    let k = (n % 10) as nat;
    assert(digit_char(k) as u8 == k + 48);
    assert(b.last() == decimal(n).last() as u8);
    if n < 10 {
        assert(b.drop_last() =~= Seq::<u8>::empty());
        assert(crate::parse::decimal_value(Seq::<u8>::empty()) == 0);
    } else {
        let d = decimal(n / 10);
        assert(b.drop_last().len() == d.len());
        assert forall|j: int| 0 <= j < d.len() implies b.drop_last()[j] == #[trigger] d[j] as u8 by {
            assert(decimal(n)[j] == d[j]);
        }
        lemma_decimal_reads_back(n / 10, b.drop_last());
    }
}

} // verus!
