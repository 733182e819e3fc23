//! The CSV emitter: `csv_core::Writer` behind contracts.
//!
//! Quoting and escaping are the emitter's business. This module says only
//! what the drivers rely on: each operation is a function of the emitter, its
//! argument and the room it is given, it writes from the front of that room
//! and nowhere else, and it moves the emitter through a record in the way
//! [`Phase`] describes.

use vstd::prelude::*;

verus! {

/// A CSV emitter: a configuration (delimiter, terminator, quote, style) and
/// the place it has reached in the record being written.
///
/// The fields of `csv_core::Writer` are private to that crate, so a value of
/// this type is opaque to the verifier. Two emitters are equal when they are
/// configured alike and stand at the same place.
#[verifier::external_body]
#[derive(Debug)]
pub struct Emitter {
    inner: csv_core::Writer,
}

/// `csv_core::WriterBuilder`: a configuration for an emitter. It is carried
/// to `build` as it is.
#[verifier::external_type_specification]
#[verifier::external_body]
pub struct ExWriterBuilder(csv_core::WriterBuilder);

/// Where an emitter stands within a record.
pub ghost struct Phase {
    /// A field has been begun and no delimiter or terminator has followed it.
    pub in_field: bool,
    /// The field last begun was opened with a quote that is not closed yet.
    pub quoting: bool,
    /// Bytes written since the last terminator.
    pub record_bytes: nat,
}

impl Phase {
    /// The phase of an emitter that has written nothing of a record.
    pub open spec fn start() -> Phase {
        Phase { in_field: false, quoting: false, record_bytes: 0 }
    }
}

/// What one operation of an emitter did.
pub ghost struct Emitted {
    /// The room was too small for all of it.
    pub full: bool,
    /// The bytes written, from the front of the room.
    pub bytes: Seq<u8>,
    /// The emitter afterwards.
    pub next: Emitter,
}

/// The phase an emitter is in.
pub uninterp spec fn emitter_phase(e: Emitter) -> Phase;

/// The delimiter of an emitter: what `csv_core::Writer::get_delimiter`
/// returns.
pub uninterp spec fn emitter_delimiter(e: Emitter) -> u8;

/// The quote of an emitter: what `csv_core::Writer::get_quote` returns.
pub uninterp spec fn emitter_quote(e: Emitter) -> u8;

/// The terminator of an emitter: what `csv_core::Writer::get_terminator`
/// returns, as the bytes that are written for it.
pub uninterp spec fn emitter_terminator(e: Emitter) -> Seq<u8>;

/// Whether two emitters have the same delimiter, quote and terminator.
pub open spec fn same_dialect(a: Emitter, b: Emitter) -> bool {
    &&& emitter_delimiter(a) == emitter_delimiter(b)
    &&& emitter_quote(a) == emitter_quote(b)
    &&& emitter_terminator(a) == emitter_terminator(b)
}

/// The quote that closes an open field, or nothing where none is open.
pub open spec fn closing(e: Emitter) -> Seq<u8> {
    if emitter_phase(e).quoting {
        seq![emitter_quote(e)]
    } else {
        Seq::empty()
    }
}

/// What holds of the field data that an emitter writes: it fits the room,
/// the dialect stays, and a field that is begun without a quote and written
/// whole is the input as it is.
pub open spec fn field_obeys(e: Emitter, input: Seq<u8>, room: nat) -> bool {
    let step = field_step(e, input, room);
    &&& step.bytes.len() <= room
    &&& same_dialect(e, step.next)
    &&& !step.full && !emitter_phase(e).in_field && !emitter_phase(step.next).quoting
        ==> step.bytes == input
}

/// What holds of the delimiter that an emitter writes: it fits the room,
/// the dialect stays, and where there was room it is the closing quote, if
/// one was open, and then the delimiter.
pub open spec fn delimiter_obeys(e: Emitter, room: nat) -> bool {
    let step = delimiter_step(e, room);
    &&& step.bytes.len() <= room
    &&& same_dialect(e, step.next)
    &&& !step.full ==> step.bytes == closing(e) + seq![emitter_delimiter(e)]
}

/// What holds of the terminator that an emitter writes: it fits the room,
/// the dialect stays, and where there was room it is a pair of quotes, if
/// the record was empty, the closing quote, if one was open, and then the
/// terminator.
pub open spec fn terminator_obeys(e: Emitter, room: nat) -> bool {
    let step = terminator_step(e, room);
    &&& step.bytes.len() <= room
    &&& same_dialect(e, step.next)
    &&& !step.full ==> step.bytes == (if emitter_phase(e).record_bytes == 0 {
        seq![emitter_quote(e), emitter_quote(e)]
    } else {
        Seq::empty()
    }) + closing(e) + emitter_terminator(e)
}

/// The emitter that `csv_core::WriterBuilder::build` makes of a builder.
pub uninterp spec fn built_emitter(builder: csv_core::WriterBuilder) -> Emitter;

/// The builder after `csv_core::WriterBuilder::delimiter` was given a byte.
pub uninterp spec fn delimited_by(builder: csv_core::WriterBuilder, delimiter: u8) -> csv_core::WriterBuilder;

/// The builder after `csv_core::WriterBuilder::quote` was given a byte.
pub uninterp spec fn quoted_by(builder: csv_core::WriterBuilder, quote: u8) -> csv_core::WriterBuilder;

/// The builder after `csv_core::WriterBuilder::terminator` was given a
/// single byte as the terminator.
pub uninterp spec fn terminated_by(builder: csv_core::WriterBuilder, terminator: u8) -> csv_core::WriterBuilder;

/// The dialect that a writer has unless it is given another: fields are
/// parted by `,`, quoted with `"`, and a record ends with a line feed. What
/// else the builder holds stays as it is.
pub open spec fn default_dialect(builder: csv_core::WriterBuilder) -> csv_core::WriterBuilder {
    terminated_by(quoted_by(delimited_by(builder, 0x2c), 0x22), 0x0a)
}

/// What `csv_core::Writer::field` does with `input` in `room` bytes.
pub uninterp spec fn field_step(e: Emitter, input: Seq<u8>, room: nat) -> Emitted;

/// What `csv_core::Writer::delimiter` does in `room` bytes.
pub uninterp spec fn delimiter_step(e: Emitter, room: nat) -> Emitted;

/// What `csv_core::Writer::terminator` does in `room` bytes.
pub uninterp spec fn terminator_step(e: Emitter, room: nat) -> Emitted;

/// `csv_core::WriterBuilder::new`: a builder with the default configuration.
#[verifier::external_body]
pub(crate) fn default_builder() -> csv_core::WriterBuilder {
    csv_core::WriterBuilder::new()
}

/// `csv_core::WriterBuilder::delimiter`: the builder is as before, but for
/// the delimiter.
#[verifier::external_body]
pub(crate) fn set_delimiter(builder: &mut csv_core::WriterBuilder, delimiter: u8)
    ensures
        *final(builder) == delimited_by(*old(builder), delimiter),
        emitter_delimiter(built_emitter(*final(builder))) == delimiter,
        emitter_quote(built_emitter(*final(builder))) == emitter_quote(built_emitter(*old(builder))),
        emitter_terminator(built_emitter(*final(builder))) == emitter_terminator(
            built_emitter(*old(builder)),
        ),
{
    builder.delimiter(delimiter);
}

/// `csv_core::WriterBuilder::quote`: the builder is as before, but for the
/// quote.
#[verifier::external_body]
pub(crate) fn set_quote(builder: &mut csv_core::WriterBuilder, quote: u8)
    ensures
        *final(builder) == quoted_by(*old(builder), quote),
        emitter_quote(built_emitter(*final(builder))) == quote,
        emitter_delimiter(built_emitter(*final(builder))) == emitter_delimiter(
            built_emitter(*old(builder)),
        ),
        emitter_terminator(built_emitter(*final(builder))) == emitter_terminator(
            built_emitter(*old(builder)),
        ),
{
    builder.quote(quote);
}

/// `csv_core::WriterBuilder::terminator`, with a single byte as the
/// terminator: the builder is as before, but for the terminator.
#[verifier::external_body]
pub(crate) fn set_terminator(builder: &mut csv_core::WriterBuilder, terminator: u8)
    ensures
        *final(builder) == terminated_by(*old(builder), terminator),
        emitter_terminator(built_emitter(*final(builder))) == seq![terminator],
        emitter_delimiter(built_emitter(*final(builder))) == emitter_delimiter(
            built_emitter(*old(builder)),
        ),
        emitter_quote(built_emitter(*final(builder))) == emitter_quote(built_emitter(*old(builder))),
{
    builder.terminator(csv_core::Terminator::Any(terminator));
}

/// `csv_core::WriterBuilder::build`: the emitter is a function of the
/// builder, and it comes out at the start of a record, whatever the
/// configuration.
#[verifier::external_body]
pub(crate) fn build_emitter(builder: &csv_core::WriterBuilder) -> (e: Emitter)
    ensures
        e == built_emitter(*builder),
        emitter_phase(e) == Phase::start(),
{
    Emitter { inner: builder.build() }
}

/// `Clone::clone` of `csv_core::Writer`: configuration and phase are copied.
#[verifier::external_body]
pub(crate) fn clone_emitter(e: &Emitter) -> (c: Emitter)
    ensures
        c == *e,
{
    Emitter { inner: e.inner.clone() }
}

/// `csv_core::Writer::field`: writes `input` as field data, quoted and escaped
/// as the configuration asks, and returns whether `output` was too small,
/// with the number of bytes written.
///
/// Claimed of it: it writes `output[..n]` and nothing else; the byte count of
/// the record grows by `n`; when it succeeds a field is begun, and a field
/// that it opened with a quote has at least that quote written; a field that
/// it begins without a quote and writes whole is copied as it is; the
/// dialect stays. The count is a `u64` that the call adds to, hence the
/// bound.
#[verifier::external_body]
pub(crate) fn emit_field(e: &mut Emitter, input: &[u8], output: &mut [u8]) -> (r: (bool, usize))
    requires
        emitter_phase(*old(e)).record_bytes + old(output)@.len() <= u64::MAX,
    ensures
        r.1 <= old(output)@.len(),
        final(output)@.len() == old(output)@.len(),
        final(output)@.skip(r.1 as int) == old(output)@.skip(r.1 as int),
        field_step(*old(e), input@, old(output)@.len()) == (Emitted {
            full: r.0,
            bytes: final(output)@.take(r.1 as int),
            next: *final(e),
        }),
        emitter_phase(*final(e)).record_bytes == emitter_phase(*old(e)).record_bytes + r.1,
        !r.0 ==> emitter_phase(*final(e)).in_field,
        !r.0 && !emitter_phase(*old(e)).in_field && emitter_phase(*final(e)).quoting ==> r.1 >= 1,
        field_obeys(*old(e), input@, old(output)@.len()),
{
    let (res, _, n) = e.inner.field(input, output);
    match res {
        csv_core::WriteResult::InputEmpty => (false, n),
        csv_core::WriteResult::OutputFull => (true, n),
    }
}

/// `csv_core::Writer::delimiter`: closes an open quote, then writes the
/// delimiter.
///
/// Claimed of it: it writes `output[..n]` and nothing else; the byte count of
/// the record grows by `n`; when it succeeds no field is begun and no quote
/// is open, and what it wrote is the closing quote, if one was open, and the
/// delimiter; the dialect stays.
#[verifier::external_body]
pub(crate) fn emit_delimiter(e: &mut Emitter, output: &mut [u8]) -> (r: (bool, usize))
    requires
        emitter_phase(*old(e)).record_bytes + old(output)@.len() <= u64::MAX,
    ensures
        r.1 <= old(output)@.len(),
        final(output)@.len() == old(output)@.len(),
        final(output)@.skip(r.1 as int) == old(output)@.skip(r.1 as int),
        delimiter_step(*old(e), old(output)@.len()) == (Emitted {
            full: r.0,
            bytes: final(output)@.take(r.1 as int),
            next: *final(e),
        }),
        emitter_phase(*final(e)).record_bytes == emitter_phase(*old(e)).record_bytes + r.1,
        !r.0 ==> !emitter_phase(*final(e)).in_field && !emitter_phase(*final(e)).quoting,
        delimiter_obeys(*old(e), old(output)@.len()),
{
    let (res, n) = e.inner.delimiter(output);
    match res {
        csv_core::WriteResult::InputEmpty => (false, n),
        csv_core::WriteResult::OutputFull => (true, n),
    }
}

/// `csv_core::Writer::terminator`: writes a pair of quotes if the record is
/// still empty, closes an open quote, then writes the terminator.
///
/// It asserts that no quote is open while the record is empty, so that state
/// is left out. Claimed of it: it writes `output[..n]` and nothing else; the
/// byte count of the record grows by no more than `n`; when it succeeds the
/// emitter is at the start of a record again, and what it wrote is a pair of
/// quotes, if the record was empty, the closing quote, if one was open, and
/// the terminator (`\r\n` for `Terminator::CRLF`); the dialect stays.
#[verifier::external_body]
pub(crate) fn emit_terminator(e: &mut Emitter, output: &mut [u8]) -> (r: (bool, usize))
    requires
        !(emitter_phase(*old(e)).record_bytes == 0 && emitter_phase(*old(e)).quoting),
        emitter_phase(*old(e)).record_bytes + old(output)@.len() <= u64::MAX,
    ensures
        r.1 <= old(output)@.len(),
        final(output)@.len() == old(output)@.len(),
        final(output)@.skip(r.1 as int) == old(output)@.skip(r.1 as int),
        terminator_step(*old(e), old(output)@.len()) == (Emitted {
            full: r.0,
            bytes: final(output)@.take(r.1 as int),
            next: *final(e),
        }),
        emitter_phase(*final(e)).record_bytes <= emitter_phase(*old(e)).record_bytes + r.1,
        !r.0 ==> emitter_phase(*final(e)) == Phase::start(),
        terminator_obeys(*old(e), old(output)@.len()),
{
    let (res, n) = e.inner.terminator(output);
    match res {
        csv_core::WriteResult::InputEmpty => (false, n),
        csv_core::WriteResult::OutputFull => (true, n),
    }
}

} // verus!
