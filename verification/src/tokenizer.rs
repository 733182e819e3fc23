//! The CSV tokenizer: `csv_core::Reader` behind contracts.
//!
//! Field boundaries, quotes and escapes are the tokenizer's business. This
//! module says only what the driver relies on: a call is a function of the
//! tokenizer, the input it is handed and the room for the field, and it
//! reports how it ended, how much input it took and which bytes it put at
//! the front of that room.

use vstd::prelude::*;

verus! {

/// A CSV tokenizer: a configuration (delimiter, terminator, quote) and the
/// place it has reached in its input.
///
/// The fields of `csv_core::Reader` are private to that crate, so a value of
/// this type is opaque to the verifier. Two tokenizers are equal when they
/// are configured alike and stand at the same place.
#[verifier::external_body]
#[derive(Debug)]
pub struct Tokenizer {
    inner: csv_core::Reader,
}

/// `csv_core::ReaderBuilder`: a configuration for a tokenizer. It is carried
/// to `build` as it is.
#[verifier::external_type_specification]
#[verifier::external_body]
pub struct ExReaderBuilder(csv_core::ReaderBuilder);

/// How a call of the tokenizer ended.
#[derive(Debug, PartialEq, Eq, Clone, Copy)]
pub enum FieldEnd {
    /// The input ran out before the field did. What was put into the room is
    /// the field so far.
    InputEmpty,
    /// The room was too small for the field.
    OutputFull,
    /// The field is complete. It was the last of its record when
    /// `record_end` is set.
    Field { record_end: bool },
    /// There is no input left and no field.
    End,
}

/// What one call of a tokenizer did.
pub ghost struct Read {
    /// How the call ended.
    pub end: FieldEnd,
    /// The number of input bytes taken.
    pub nin: nat,
    /// The bytes put into the room, from its front.
    pub bytes: Seq<u8>,
    /// The tokenizer afterwards.
    pub next: Tokenizer,
}

/// What `csv_core::Reader::read_field` does with `input` and `room` bytes
/// for the field.
pub uninterp spec fn read_step(t: Tokenizer, input: Seq<u8>, room: nat) -> Read;

/// The tokenizer that `csv_core::ReaderBuilder::build` makes of a builder.
pub uninterp spec fn built_tokenizer(builder: csv_core::ReaderBuilder) -> Tokenizer;

/// The builder after `csv_core::ReaderBuilder::delimiter` was given a byte.
pub uninterp spec fn parted_at(builder: csv_core::ReaderBuilder, delimiter: u8) -> csv_core::ReaderBuilder;

/// The builder after `csv_core::ReaderBuilder::quote` was given a byte.
pub uninterp spec fn unquoting(builder: csv_core::ReaderBuilder, quote: u8) -> csv_core::ReaderBuilder;

/// The builder after `csv_core::ReaderBuilder::terminator` was given
/// `Terminator::CRLF`, for which `\r`, `\n` and `\r\n` each end a record.
pub uninterp spec fn ending_at_line_breaks(builder: csv_core::ReaderBuilder) -> csv_core::ReaderBuilder;

/// The dialect that a reader has unless it is given another: fields are
/// parted by `,`, quoted with `"`, and a record ends at a line break. What
/// else the builder holds stays as it is.
pub open spec fn default_dialect(builder: csv_core::ReaderBuilder) -> csv_core::ReaderBuilder {
    ending_at_line_breaks(unquoting(parted_at(builder, 0x2c), 0x22))
}

/// The tokenizer after `csv_core::Reader::reset`: configured as `t`, and as
/// if it had read nothing.
pub uninterp spec fn rewound(t: Tokenizer) -> Tokenizer;

/// `csv_core::ReaderBuilder::new`: a builder with the default configuration.
#[verifier::external_body]
pub(crate) fn default_builder() -> csv_core::ReaderBuilder {
    csv_core::ReaderBuilder::new()
}

/// `csv_core::ReaderBuilder::delimiter`: the builder is as before, but for
/// the delimiter.
#[verifier::external_body]
pub(crate) fn set_delimiter(builder: &mut csv_core::ReaderBuilder, delimiter: u8)
    ensures
        *final(builder) == parted_at(*old(builder), delimiter),
{
    builder.delimiter(delimiter);
}

/// `csv_core::ReaderBuilder::quote`: the builder is as before, but for the
/// quote.
#[verifier::external_body]
pub(crate) fn set_quote(builder: &mut csv_core::ReaderBuilder, quote: u8)
    ensures
        *final(builder) == unquoting(*old(builder), quote),
{
    builder.quote(quote);
}

/// `csv_core::ReaderBuilder::terminator`, with `Terminator::CRLF`: the
/// builder is as before, but for the terminator.
#[verifier::external_body]
pub(crate) fn set_line_breaks(builder: &mut csv_core::ReaderBuilder)
    ensures
        *final(builder) == ending_at_line_breaks(*old(builder)),
{
    builder.terminator(csv_core::Terminator::CRLF);
}

/// `csv_core::ReaderBuilder::build`: the tokenizer is a function of the
/// builder, and it comes out as one that has read nothing, so that resetting
/// it changes nothing.
#[verifier::external_body]
pub(crate) fn build_tokenizer(builder: &csv_core::ReaderBuilder) -> (t: Tokenizer)
    ensures
        t == built_tokenizer(*builder),
        rewound(t) == t,
{
    Tokenizer { inner: builder.build() }
}

/// `csv_core::Reader::reset`: the tokenizer forgets where it was and keeps
/// its configuration. Resetting twice is resetting once.
#[verifier::external_body]
pub(crate) fn rewind(t: &mut Tokenizer)
    ensures
        *final(t) == rewound(*old(t)),
        rewound(*final(t)) == *final(t),
{
    t.inner.reset()
}

/// `csv_core::Reader::read_field`: reads at most one field from `input`
/// into `scratch`, unescaped, and returns how the call ended, the number of
/// input bytes taken and the number of bytes put into `scratch`.
///
/// Claimed of it: the two counts lie within the two slices, and reading
/// leaves the configuration alone, so that a reset afterwards gives what a
/// reset before would have given.
#[verifier::external_body]
pub(crate) fn read_field<const N: usize>(
    t: &mut Tokenizer,
    input: &[u8],
    scratch: &mut [u8; N],
) -> (r: (FieldEnd, usize, usize))
    ensures
        r.1 <= input@.len(),
        r.2 <= N,
        read_step(*old(t), input@, N as nat) == (Read {
            end: r.0,
            nin: r.1 as nat,
            bytes: final(scratch)@.take(r.2 as int),
            next: *final(t),
        }),
        rewound(*final(t)) == rewound(*old(t)),
{
    let (end, nin, nout) = t.inner.read_field(input, scratch);
    match end {
        csv_core::ReadFieldResult::InputEmpty => (FieldEnd::InputEmpty, nin, nout),
        csv_core::ReadFieldResult::OutputFull => (FieldEnd::OutputFull, nin, nout),
        csv_core::ReadFieldResult::Field { record_end } => (FieldEnd::Field { record_end }, nin, nout),
        csv_core::ReadFieldResult::End => (FieldEnd::End, nin, nout),
    }
}

} // verus!
