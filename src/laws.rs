use vstd::prelude::*;

use crate::index::Index;
use crate::parse::{field_text, lemma_field_reads_back, lemma_field_text_chars, parse_spec, ParseError};
use crate::render::{index_text, slice_text};
use crate::slice::Slice;
use vstd::utf8::{encode_utf8, is_ascii_chars, is_ascii_chars_encode_utf8};

verus! {

/// With every field absent, a slice selects every position of the array in
/// ascending order.
pub proof fn lemma_ascending_default(len: usize)
    ensures
        (Slice { start: Index::Default, end: Index::Default, step: None }).positions(len as int)
            == Seq::new(len as nat, |k: int| k),
{
    let s = Slice { start: Index::Default, end: Index::Default, step: None };
    assert(s.positions(len as int) =~= Seq::new(len as nat, |k: int| k));
}

/// With a step of `-1` and the bounds absent, a slice selects every position
/// of the array in descending order.
pub proof fn lemma_descending_default(len: usize)
    ensures
        (Slice { start: Index::Default, end: Index::Default, step: Some(-1isize) }).positions(len as int)
            == Seq::new(len as nat, |k: int| len - 1 - k),
{
    let s = Slice { start: Index::Default, end: Index::Default, step: Some(-1isize) };
    assert(s.positions(len as int) =~= Seq::new(len as nat, |k: int| len - 1 - k));
}

/// Walking the window `[a, b)` forward by `1` and backward by `-1`, from the
/// position before `b` counted from the back down to the position before `a`,
/// selects the same positions in opposite orders.
pub proof fn lemma_forward_backward(len: usize, a: usize, b: usize)
    requires
        a <= b <= len,
        len - b + 1 <= usize::MAX,
    ensures
        ({
            let forward = Slice { start: Index::Head(a), end: Index::Head(b), step: Some(1isize) };
            let backward = Slice {
                start: Index::Tail((len - b + 1) as usize),
                end: if a == 0 { Index::Default } else { Index::Tail((len - a + 1) as usize) },
                step: Some(-1isize),
            };
            backward.positions(len as int) == forward.positions(len as int).reverse()
        }),
{
    let forward = Slice { start: Index::Head(a), end: Index::Head(b), step: Some(1isize) };
    let backward = Slice {
        start: Index::Tail((len - b + 1) as usize),
        end: if a == 0 { Index::Default } else { Index::Tail((len - a + 1) as usize) },
        step: Some(-1isize),
    };
    assert(forward.positions(len as int) =~= Seq::new((b - a) as nat, |k: int| a + k));
    assert(backward.positions(len as int) =~= Seq::new((b - a) as nat, |k: int| b - 1 - k));
    assert(backward.positions(len as int) =~= forward.positions(len as int).reverse());
}

/// Ascending, an end counted from the front at or past the length selects as
/// the default end does.
pub proof fn lemma_head_end_past_len(s: Slice, len: usize, n: usize)
    requires
        s.ascending(),
        n >= len,
    ensures
        (Slice { end: Index::Head(n), ..s }).positions(len as int)
            == (Slice { end: Index::Default, ..s }).positions(len as int),
{
}

/// Descending, an end counted from the back beyond the length selects as the
/// default end does: the walk runs down to position `0`.
pub proof fn lemma_tail_end_past_len(s: Slice, len: usize, n: usize)
    requires
        !s.ascending(),
        n >= len + 1,
    ensures
        (Slice { end: Index::Tail(n), ..s }).positions(len as int)
            == (Slice { end: Index::Default, ..s }).positions(len as int),
{
}

/// Ascending, a start counted from the back at or beyond the length selects as
/// the default start does: the walk begins at position `0`.
pub proof fn lemma_tail_start_past_len(s: Slice, len: usize, n: usize)
    requires
        s.ascending(),
        n >= len,
    ensures
        (Slice { start: Index::Tail(n), ..s }).positions(len as int)
            == (Slice { start: Index::Default, ..s }).positions(len as int),
{
}

/// A zero step selects nothing, whatever the bounds and the length.
pub proof fn lemma_zero_step(s: Slice, len: usize)
    requires
        s.step == Some(0isize),
    ensures
        s.positions(len as int) == Seq::<int>::empty(),
{
    assert(s.positions(len as int) =~= Seq::<int>::empty());
}

/// Ascending, a bound counted from the back by any amount at or beyond the
/// length selects as the bound counted back by exactly the length: however
/// large, the amount saturates at the front of the array.
pub proof fn lemma_tail_saturates(s: Slice, len: usize, n: usize)
    requires
        s.ascending(),
        n >= len,
    ensures
        (Slice { start: Index::Tail(n), ..s }).positions(len as int)
            == (Slice { start: Index::Tail(len), ..s }).positions(len as int),
        (Slice { end: Index::Tail(n), ..s }).positions(len as int)
            == (Slice { end: Index::Tail(len), ..s }).positions(len as int),
{
}

/// Whether an index is written in a form that reads back as itself: a
/// magnitude that fits an `isize`, and `Tail(0)`, whose text `-0` reads as
/// `Head(0)`, left out.
pub open spec fn has_text_form(i: Index) -> bool {
    match i {
        Index::Head(n) => n <= isize::MAX,
        Index::Tail(n) => 1 <= n <= isize::MAX,
        Index::Default => true,
    }
}

/// The field an index is written as.
spec fn index_field(i: Index) -> Option<int> {
    match i {
        Index::Head(n) => Some(n as int),
        Index::Tail(n) => Some(-n),
        Index::Default => None,
    }
}

/// Reading back the text of a slice gives the slice, whenever its indices
/// have a text form and its step is not `isize::MIN`.
pub proof fn lemma_text_round_trip(s: Slice)
    requires
        has_text_form(s.start),
        has_text_form(s.end),
        s.step != Some(isize::MIN),
    ensures
        parse_spec(encode_utf8(slice_text(s))) == Ok::<Slice, ParseError>(s),
{
    let fs = index_field(s.start);
    let fe = index_field(s.end);
    let fp = match s.step {
        Some(v) => Some(v as int),
        None => None,
    };
    let ts = field_text(fs);
    let te = field_text(fe);
    let tp = field_text(fp);
    assert(index_text(s.start) =~= ts);
    assert(index_text(s.end) =~= te);
    let text = slice_text(s);
    assert(text =~= seq!['['] + ts + seq![':'] + te + seq![':'] + tp + seq![']']);
    let first_colon = ts.len() as int + 1;
    let second_colon = first_colon + 1 + te.len() as int;
    let close = second_colon + 1 + tp.len() as int;
    assert(text.len() == close + 1);
    assert(text[0] == '[');
    assert(text[first_colon] == ':');
    assert(text[second_colon] == ':');
    assert(text[close] == ']');
    assert forall|j: int| 0 <= j < ts.len() implies text[1 + j] == #[trigger] ts[j] by {}
    assert forall|j: int| 0 <= j < te.len() implies text[first_colon + 1 + j] == #[trigger] te[j] by {}
    assert forall|j: int| 0 <= j < tp.len() implies text[second_colon + 1 + j] == #[trigger] tp[j] by {}

    lemma_field_text_chars(fs);
    lemma_field_text_chars(fe);
    lemma_field_text_chars(fp);
    assert(is_ascii_chars(text)) by {
        assert forall|i: int| 0 <= i < text.len() implies '\0' <= #[trigger] text[i] <= '\u{7f}' by {
            if 1 <= i < first_colon {
                assert(text[i] == ts[i - 1]);
            } else if first_colon < i < second_colon {
                assert(text[i] == te[i - first_colon - 1]);
            } else if second_colon < i < close {
                assert(text[i] == tp[i - second_colon - 1]);
            }
        }
    }
    is_ascii_chars_encode_utf8(text);
    let b = encode_utf8(text);

    assert forall|j: int| 0 <= j < ts.len() implies b[1 + j] == #[trigger] ts[j] as u8 by {
        assert(text[1 + j] == ts[j]);
    }
    lemma_field_reads_back(b, 1, fs, 58);
    assert forall|j: int| 0 <= j < te.len() implies b[first_colon + 1 + j] == #[trigger] te[j] as u8 by {
        assert(text[first_colon + 1 + j] == te[j]);
    }
    lemma_field_reads_back(b, first_colon + 1, fe, 58);
    assert forall|j: int| 0 <= j < tp.len() implies b[second_colon + 1 + j] == #[trigger] tp[j] as u8 by {
        assert(text[second_colon + 1 + j] == tp[j]);
    }
    lemma_field_reads_back(b, second_colon + 1, fp, 93);
    assert(b[0] == 91);
}

} // verus!
