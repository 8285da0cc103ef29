//! Python-style slicing of arrays: a slice expression `[start:end:step]`
//! selects, in order, the positions of an array of known length.
//!
//! Indices are either counted from the front (`Head`), counted from the back
//! (`Tail`) or left to a default that depends on the direction of the step.
//! Out-of-range indices are clamped, never rejected, and a zero step selects
//! nothing. The positions are produced one at a time, by walks that hold only
//! their current position, their end and their step.

mod index;
mod laws;
mod parse;
mod render;
mod slice;
mod stride;

pub use index::{clamp, clamped, signed_index, Index};
pub use laws::{
    has_text_form, lemma_ascending_default, lemma_descending_default, lemma_forward_backward,
    lemma_head_end_past_len, lemma_tail_end_past_len, lemma_tail_saturates,
    lemma_tail_start_past_len, lemma_text_round_trip, lemma_zero_step,
};
pub use parse::{
    decimal_value, digits_from, field_index, field_spec, field_text, is_digit,
    lemma_field_reads_back, lemma_field_text_chars, parse, parse_spec, ParseError,
};
pub use render::{
    decimal, digit_char, index_text, is_digit_char, lemma_decimal_digits,
    lemma_decimal_reads_back, signed_decimal, slice_text,
};
pub use slice::{lemma_positions_in_array, Elements, Slice};
pub use stride::{
    lemma_stride_advance, lemma_stride_between, lemma_stride_nonempty, stride, stride_count, Iter,
};
