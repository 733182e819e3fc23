//! Encoding: one described value to one CSV record.

use vstd::prelude::*;
use vstd::string::StringSliceAdditionalSpecFns;
use vstd::utf8::encode_utf8;
use crate::codec::{bool_text, char_utf8, format_integer, int_text, new_buffer};
use crate::value::{lemma_leaves_of_concat, lemma_leaves_of_step, lemma_trees, Tree, Value};
use crate::emitter::{
    build_emitter, built_emitter, clone_emitter, default_builder, default_dialect,
    delimiter_obeys, delimiter_step, emit_delimiter, emit_field, emit_terminator,
    emitter_delimiter, emitter_phase, emitter_quote, emitter_terminator, field_obeys, field_step,
    set_delimiter, set_quote, set_terminator, terminator_obeys, terminator_step, Emitted, Emitter,
    Phase,
};

verus! {

/// This type represents all possible errors that can occur when serializing CSV data.
#[derive(Debug, PartialEq, Eq, Clone, Copy)]
pub enum Error {
    /// Buffer overflow.
    Overflow,
}

impl Error {
    /// The text that describes this error.
    pub open spec fn description(self) -> Seq<char> {
        "Buffer overflow"@
    }

    /// Describes this error for a diagnostic.
    pub fn to_string(&self) -> (text: String)
        ensures
            text@ == self.description(),
    {
        "Buffer overflow".to_owned()
    }
}

/// What a [`Serializer`] has done so far: the emitter as it stands, the whole
/// output buffer, and how much of it is committed.
pub ghost struct Sink {
    /// The emitter, as the operations so far have left it.
    pub emitter: Emitter,
    /// The output buffer, committed part and rest.
    pub buffer: Seq<u8>,
    /// The number of bytes committed, from the front of the buffer.
    pub nwritten: nat,
    /// A leaf has been written, so the next one is preceded by a delimiter.
    pub continuing: bool,
    /// The buffer was too small for an earlier operation.
    pub failed: bool,
}

impl Sink {
    /// A sink that has written nothing into `buffer`.
    pub open spec fn fresh(emitter: Emitter, buffer: Seq<u8>) -> Sink {
        Sink { emitter, buffer, nwritten: 0, continuing: false, failed: false }
    }

    /// The bytes committed so far.
    pub open spec fn written(self) -> Seq<u8> {
        self.buffer.take(self.nwritten as int)
    }

    /// The room left behind the committed bytes.
    pub open spec fn room(self) -> nat {
        (self.buffer.len() - self.nwritten) as nat
    }

    /// The sink after an operation of the emitter that had the room left:
    /// the bytes it wrote stand behind those committed before, and the rest
    /// of the buffer is as it was.
    pub open spec fn commit(self, e: Emitted) -> Sink {
        Sink {
            emitter: e.next,
            buffer: Seq::new(
                self.buffer.len(),
                |i: int|
                    if self.nwritten <= i < self.nwritten + e.bytes.len() {
                        e.bytes[i - self.nwritten]
                    } else {
                        self.buffer[i]
                    },
            ),
            nwritten: self.nwritten + e.bytes.len(),
            continuing: self.continuing,
            failed: e.full,
        }
    }

    /// The sink after a delimiter. A failed sink stays as it is.
    pub open spec fn delimiter(self) -> Sink {
        if self.failed {
            self
        } else {
            self.commit(delimiter_step(self.emitter, self.room()))
        }
    }

    /// The sink after the bytes of one field. A failed sink stays as it is.
    pub open spec fn field(self, text: Seq<u8>) -> Sink {
        if self.failed {
            self
        } else {
            self.commit(field_step(self.emitter, text, self.room()))
        }
    }

    /// The sink after the record terminator, ready for the first leaf of
    /// another record. A failed sink stays as it is.
    pub open spec fn terminator(self) -> Sink {
        if self.failed {
            self
        } else {
            Sink { continuing: false, ..self.commit(terminator_step(self.emitter, self.room())) }
        }
    }

    /// The sink after one scalar leaf: a delimiter unless this is the first
    /// leaf of the record, then the field.
    pub open spec fn leaf(self, text: Seq<u8>) -> Sink {
        if self.failed {
            self
        } else {
            let separated = if self.continuing {
                self.delimiter()
            } else {
                self
            };
            Sink { continuing: true, ..separated.field(text) }
        }
    }

    /// The sink after a run of scalar leaves, first to last.
    pub open spec fn leaves(self, texts: Seq<Seq<u8>>) -> Sink
        decreases texts.len(),
    {
        if texts.len() == 0 {
            self
        } else {
            self.leaf(texts.first()).leaves(texts.drop_first())
        }
    }

    /// The sink after a whole record of the given leaves.
    pub open spec fn record(self, texts: Seq<Seq<u8>>) -> Sink {
        self.leaves(texts).terminator()
    }

    /// Whether the emitter did with one leaf what it is known to do: see
    /// [`delimiter_obeys`] and [`field_obeys`].
    pub open spec fn leaf_obeys(self, text: Seq<u8>) -> bool {
        let separated = if self.continuing {
            self.delimiter()
        } else {
            self
        };
        self.failed || {
            &&& self.continuing ==> delimiter_obeys(self.emitter, self.room())
            &&& !separated.failed ==> field_obeys(separated.emitter, text, separated.room())
        }
    }

    /// Whether the emitter did with a run of leaves what it is known to do.
    pub open spec fn leaves_obey(self, texts: Seq<Seq<u8>>) -> bool
        decreases texts.len(),
    {
        texts.len() > 0 ==> {
            &&& self.leaf_obeys(texts.first())
            &&& self.leaf(texts.first()).leaves_obey(texts.drop_first())
        }
    }

    /// Whether the emitter did with the terminator what it is known to do:
    /// see [`terminator_obeys`].
    pub open spec fn end_obeys(self) -> bool {
        self.failed || terminator_obeys(self.emitter, self.room())
    }

    /// Whether the emitter did with a whole record what it is known to do.
    pub open spec fn record_obeys(self, texts: Seq<Seq<u8>>) -> bool {
        &&& self.leaves_obey(texts)
        &&& self.leaves(texts).end_obeys()
    }
}

/// A failed sink takes no more leaves.
pub proof fn lemma_failed_absorbs(s: Sink, texts: Seq<Seq<u8>>)
    requires
        s.failed,
    ensures
        s.leaves(texts) == s,
    decreases texts.len(),
{
    if texts.len() > 0 {
        lemma_failed_absorbs(s, texts.drop_first());
    }
}

/// Writing two runs of leaves one after the other is writing their
/// concatenation.
pub proof fn lemma_leaves_concat(s: Sink, a: Seq<Seq<u8>>, b: Seq<Seq<u8>>)
    ensures
        s.leaves(a + b) == s.leaves(a).leaves(b),
    decreases a.len(),
{
    if a.len() == 0 {
        assert(a + b == b);
    } else {
        assert((a + b).first() == a.first());
        assert((a + b).drop_first() == a.drop_first() + b);
        lemma_leaves_concat(s.leaf(a.first()), a.drop_first(), b);
    }
}

/// What is known of two runs of leaves is known of their concatenation.
pub proof fn lemma_leaves_obey_concat(s: Sink, a: Seq<Seq<u8>>, b: Seq<Seq<u8>>)
    requires
        s.leaves_obey(a),
        s.leaves(a).leaves_obey(b),
    ensures
        s.leaves_obey(a + b),
    decreases a.len(),
{
    if a.len() == 0 {
        assert(a + b == b);
    } else {
        assert((a + b).first() == a.first());
        assert((a + b).drop_first() == a.drop_first() + b);
        lemma_leaves_obey_concat(s.leaf(a.first()), a.drop_first(), b);
    }
}

/// Of a failed sink nothing more is asked.
pub proof fn lemma_failed_obeys(s: Sink, texts: Seq<Seq<u8>>)
    requires
        s.failed,
    ensures
        s.leaves_obey(texts),
    decreases texts.len(),
{
    if texts.len() > 0 {
        lemma_failed_obeys(s, texts.drop_first());
    }
}

/// What is known of one leaf is known of the run of that leaf.
pub proof fn lemma_leaves_obey_one(s: Sink, text: Seq<u8>)
    requires
        s.leaf_obeys(text),
    ensures
        s.leaves_obey(seq![text]),
{
    assert(seq![text].first() == text);
    assert(seq![text].drop_first() == Seq::<Seq<u8>>::empty());
    assert(s.leaf(text).leaves_obey(Seq::<Seq<u8>>::empty()));
}

/// A run of one leaf is that leaf.
pub proof fn lemma_leaves_one(s: Sink, text: Seq<u8>)
    ensures
        s.leaves(seq![text]) == s.leaf(text),
{
    assert(seq![text].drop_first() == Seq::<Seq<u8>>::empty());
    assert(s.leaf(text).leaves(Seq::<Seq<u8>>::empty()) == s.leaf(text));
}

/// Wrapper for [`csv_core::Writer`] that serializes described values.
///
/// The emitter it holds is never written with: every record is written by a
/// copy of it, so every record starts from the same state and nothing but
/// the configuration outlives a call.
#[derive(Debug)]
pub struct Writer {
    inner: Emitter,
}

impl Writer {
    #[verifier::type_invariant]
    spec fn at_record_start(&self) -> bool {
        emitter_phase(self.inner) == Phase::start()
    }

    /// The emitter every record of this writer starts from.
    pub closed spec fn emitter(&self) -> Emitter {
        self.inner
    }

    /// Constructs a new writer.
    ///
    /// It writes the default dialect: it is built as [`Writer::from_builder`]
    /// builds, from a builder that was handed `,` as the delimiter, `"` as
    /// the quote and a line feed as the terminator.
    pub fn new() -> (w: Self)
        ensures
            exists|start: csv_core::WriterBuilder|
                w.emitter() == built_emitter(#[trigger] default_dialect(start)),
            emitter_delimiter(w.emitter()) == 0x2c,
            emitter_quote(w.emitter()) == 0x22,
            emitter_terminator(w.emitter()) == seq![0x0au8],
    {
        let mut builder = default_builder();
        let ghost start = builder;
        set_delimiter(&mut builder, 0x2c);
        set_quote(&mut builder, 0x22);
        set_terminator(&mut builder, 0x0a);
        let w = Self::from_builder(&builder);
        assert(w.emitter() == built_emitter(default_dialect(start)));
        w
    }

    /// Constructs a new writer from [`csv_core::WriterBuilder`].
    pub fn from_builder(builder: &csv_core::WriterBuilder) -> (w: Self)
        ensures
            w.emitter() == built_emitter(*builder),
    {
        Writer { inner: build_emitter(builder) }
    }

    /// Serializes the given value as a CSV byte slice.
    ///
    /// Inserts record terminator after the serialized value.
    /// Flattens compound types (e.g. nested structs, tuples, vectors).
    /// On success, it returns the number of bytes written.
    ///
    /// The record is the one that [`Sink::record`] describes: the leaves of
    /// the value, a delimiter before each but the first, and the terminator.
    /// When the buffer is too small for any of it the call fails, and what
    /// it has written by then stays in the buffer.
    pub fn serialize(&mut self, value: &Value, output: &mut [u8]) -> (r: Result<usize, Error>)
        ensures
            final(self).emitter() == old(self).emitter(),
            ({
                let start = Sink::fresh(old(self).emitter(), old(output)@);
                let end = start.record(value@.leaves());
                &&& start.record_obeys(value@.leaves())
                &&& final(output)@ == end.buffer
                &&& end.nwritten <= end.buffer.len()
                &&& match r {
                    Ok(n) => !end.failed && n == end.nwritten,
                    Err(e) => end.failed && e == Error::Overflow,
                }
            }),
    {
        let mut serializer = Serializer::new(&*self, output);
        match serializer.serialize_value(value) {
            Ok(()) => {},
            Err(e) => {
                return Err(e);
            },
        }
        match serializer.terminator() {
            Ok(()) => {},
            Err(e) => {
                return Err(e);
            },
        }
        Ok(serializer.bytes_written())
    }
}

impl Default for Writer {
    /// A writer with the default configuration, as [`Writer::new`] makes it.
    fn default() -> (w: Self)
        ensures
            exists|start: csv_core::WriterBuilder|
                w.emitter() == built_emitter(#[trigger] default_dialect(start)),
            emitter_delimiter(w.emitter()) == 0x2c,
            emitter_quote(w.emitter()) == 0x22,
            emitter_terminator(w.emitter()) == seq![0x0au8],
    {
        Writer::new()
    }
}

/// A structure for serializing values into CSV.
#[derive(Debug)]
pub struct Serializer<'a> {
    writer: Emitter,
    output: &'a mut [u8],
    nwritten: usize,
    continuing: bool,
    failed: bool,
}

impl<'a> View for Serializer<'a> {
    type V = Sink;

    closed spec fn view(&self) -> Sink {
        Sink {
            emitter: self.writer,
            buffer: self.output@,
            nwritten: self.nwritten as nat,
            continuing: self.continuing,
            failed: self.failed,
        }
    }
}

impl<'a> Serializer<'a> {
    /// The serializer's invariant: the committed bytes lie within the buffer,
    /// and the emitter stands where the leaves written so far have left it.
    pub closed spec fn wf(&self) -> bool {
        &&& self.bounded()
        &&& !self.failed ==> {
            let phase = emitter_phase(self.writer);
            &&& phase.in_field == self.continuing
            &&& phase.quoting ==> phase.record_bytes > 0
        }
    }

    /// The borrowed output buffer.
    pub closed spec fn target(&self) -> &'a mut [u8] {
        self.output
    }

    /// Creates a new CSV serializer that writes a record of `writer` into `output`.
    pub fn new(writer: &Writer, output: &'a mut [u8]) -> (s: Self)
        ensures
            s.wf(),
            s@ == Sink::fresh(writer.emitter(), old(output)@),
            final(s.target())@ == final(output)@,
    {
        proof {
            use_type_invariant(writer);
        }
        Serializer {
            writer: clone_emitter(&writer.inner),
            output,
            nwritten: 0,
            continuing: false,
            failed: false,
        }
    }

    /// The part of the invariant that holds between any two operations of the
    /// emitter: the committed bytes lie within the buffer, and the emitter has
    /// counted no more bytes than are committed.
    spec fn bounded(&self) -> bool {
        &&& self.nwritten <= self.output@.len()
        &&& emitter_phase(self.writer).record_bytes <= self.nwritten
    }

    /// Commits the `k` bytes that an operation wrote behind the committed
    /// ones, and records whether it ran out of room.
    fn advance(&mut self, k: usize, full: bool)
        requires
            old(self).nwritten + k <= old(self).output@.len(),
        ensures
            final(self).nwritten == old(self).nwritten + k,
            final(self).failed == full,
            final(self).writer == old(self).writer,
            final(self).continuing == old(self).continuing,
            final(self).output@ == old(self).output@,
            final(final(self).output)@ == final(old(self).output)@,
    {
        proof {
            vstd::slice::axiom_spec_len(self.output);
        }
        self.nwritten = self.nwritten + k;
        self.failed = full;
    }

    /// Writes the delimiter behind the committed bytes.
    fn delimiter(&mut self) -> (r: Result<(), Error>)
        requires
            old(self).bounded(),
            !old(self).failed,
        ensures
            final(self).bounded(),
            final(self)@ == old(self)@.delimiter(),
            delimiter_obeys(old(self)@.emitter, old(self)@.room()),
            r is Err <==> final(self).failed,
            r is Ok ==> !emitter_phase(final(self).writer).in_field && !emitter_phase(
                final(self).writer,
            ).quoting,
            final(final(self).output)@ == final(old(self).output)@,
    {
        let ghost before = self.output@;
        let ghost sink = self@;
        let n = self.nwritten;
        proof {
            vstd::slice::axiom_spec_len(self.output);
        }
        let (head, tail) = self.output.split_at_mut(n);
        let (full, k) = emit_delimiter(&mut self.writer, tail);
        proof {
            assert(head@ + tail@ == sink.commit(delimiter_step(sink.emitter, sink.room())).buffer) by {
                assert forall|i: int| n + k <= i < before.len() implies (head@ + tail@)[i]
                    == before[i] by {
                    assert(tail@.skip(k as int)[i - n - k] == before.skip(n as int).skip(k as int)[i
                        - n - k]);
                }
                assert forall|i: int| n <= i < n + k implies (head@ + tail@)[i] == tail@.take(
                    k as int,
                )[i - n] by {}
            }
        }
        self.advance(k, full);
        if full {
            Err(Error::Overflow)
        } else {
            Ok(())
        }
    }

    /// Writes `input` as field data behind the committed bytes.
    fn field_data(&mut self, input: &[u8]) -> (r: Result<(), Error>)
        requires
            old(self).bounded(),
            !old(self).failed,
        ensures
            final(self).bounded(),
            final(self)@ == old(self)@.field(input@),
            field_obeys(old(self)@.emitter, input@, old(self)@.room()),
            r is Err <==> final(self).failed,
            r is Ok ==> emitter_phase(final(self).writer).in_field,
            r is Ok && !emitter_phase(old(self).writer).in_field && emitter_phase(
                final(self).writer,
            ).quoting ==> emitter_phase(final(self).writer).record_bytes > 0,
            final(final(self).output)@ == final(old(self).output)@,
    {
        let ghost before = self.output@;
        let ghost sink = self@;
        let n = self.nwritten;
        proof {
            vstd::slice::axiom_spec_len(self.output);
        }
        let (head, tail) = self.output.split_at_mut(n);
        let (full, k) = emit_field(&mut self.writer, input, tail);
        proof {
            assert(head@ + tail@ == sink.commit(
                field_step(sink.emitter, input@, sink.room()),
            ).buffer) by {
                assert forall|i: int| n + k <= i < before.len() implies (head@ + tail@)[i]
                    == before[i] by {
                    assert(tail@.skip(k as int)[i - n - k] == before.skip(n as int).skip(k as int)[i
                        - n - k]);
                }
                assert forall|i: int| n <= i < n + k implies (head@ + tail@)[i] == tail@.take(
                    k as int,
                )[i - n] by {}
            }
        }
        self.advance(k, full);
        if full {
            Err(Error::Overflow)
        } else {
            Ok(())
        }
    }

    /// Writes one scalar leaf: its bytes become one field of the record,
    /// behind a delimiter unless it is the first.
    ///
    /// Once the buffer has been too small, every later leaf fails as well and
    /// writes nothing.
    pub fn field(&mut self, input: &[u8]) -> (r: Result<(), Error>)
        requires
            old(self).wf(),
        ensures
            final(self).wf(),
            final(self)@ == old(self)@.leaf(input@),
            old(self)@.leaf_obeys(input@),
            r is Err <==> final(self)@.failed,
            final(final(self).target())@ == final(old(self).target())@,
    {
        if self.failed {
            return Err(Error::Overflow);
        }
        if self.continuing {
            match self.delimiter() {
                Ok(()) => {},
                Err(e) => {
                    self.continuing = true;
                    return Err(e);
                },
            }
        }
        let r = self.field_data(input);
        self.continuing = true;
        r
    }

    /// Ends the record: writes the terminator behind the committed bytes.
    pub fn terminator(&mut self) -> (r: Result<(), Error>)
        requires
            old(self).wf(),
        ensures
            final(self).wf(),
            final(self)@ == old(self)@.terminator(),
            old(self)@.end_obeys(),
            r is Err <==> final(self)@.failed,
            final(final(self).target())@ == final(old(self).target())@,
    {
        if self.failed {
            return Err(Error::Overflow);
        }
        let ghost before = self.output@;
        let ghost sink = self@;
        let n = self.nwritten;
        proof {
            vstd::slice::axiom_spec_len(self.output);
        }
        let (head, tail) = self.output.split_at_mut(n);
        let (full, k) = emit_terminator(&mut self.writer, tail);
        proof {
            assert(head@ + tail@ == sink.commit(terminator_step(sink.emitter, sink.room())).buffer)
                by {
                assert forall|i: int| n + k <= i < before.len() implies (head@ + tail@)[i]
                    == before[i] by {
                    assert(tail@.skip(k as int)[i - n - k] == before.skip(n as int).skip(k as int)[i
                        - n - k]);
                }
                assert forall|i: int| n <= i < n + k implies (head@ + tail@)[i] == tail@.take(
                    k as int,
                )[i - n] by {}
            }
        }
        self.advance(k, full);
        self.continuing = false;
        if full {
            Err(Error::Overflow)
        } else {
            Ok(())
        }
    }

    /// Writes a boolean as `true` or `false`.
    pub fn serialize_bool(&mut self, v: bool) -> (r: Result<(), Error>)
        requires
            old(self).wf(),
        ensures
            final(self).wf(),
            final(self)@ == old(self)@.leaf(bool_text(v)),
            old(self)@.leaf_obeys(bool_text(v)),
            r is Err <==> final(self)@.failed,
            final(final(self).target())@ == final(old(self).target())@,
    {
        if v {
            let text: [u8; 4] = [0x74, 0x72, 0x75, 0x65];
            assert(text@ =~= bool_text(true));
            self.field(text.as_slice())
        } else {
            let text: [u8; 5] = [0x66, 0x61, 0x6c, 0x73, 0x65];
            assert(text@ =~= bool_text(false));
            self.field(text.as_slice())
        }
    }

    /// Writes a signed integer in decimal.
    pub fn serialize_i64(&mut self, v: i64) -> (r: Result<(), Error>)
        requires
            old(self).wf(),
        ensures
            final(self).wf(),
            final(self)@ == old(self)@.leaf(int_text(v as int)),
            old(self)@.leaf_obeys(int_text(v as int)),
            r is Err <==> final(self)@.failed,
            final(final(self).target())@ == final(old(self).target())@,
    {
        let mut buffer = new_buffer();
        let text = format_integer(&mut buffer, v as i128);
        self.field(text)
    }

    /// Writes an unsigned integer in decimal.
    pub fn serialize_u64(&mut self, v: u64) -> (r: Result<(), Error>)
        requires
            old(self).wf(),
        ensures
            final(self).wf(),
            final(self)@ == old(self)@.leaf(int_text(v as int)),
            old(self)@.leaf_obeys(int_text(v as int)),
            r is Err <==> final(self)@.failed,
            final(final(self).target())@ == final(old(self).target())@,
    {
        let mut buffer = new_buffer();
        let text = format_integer(&mut buffer, v as i128);
        self.field(text)
    }

    /// Writes a signed integer in decimal.
    pub fn serialize_i8(&mut self, v: i8) -> (r: Result<(), Error>)
        requires
            old(self).wf(),
        ensures
            final(self).wf(),
            final(self)@ == old(self)@.leaf(int_text(v as int)),
            old(self)@.leaf_obeys(int_text(v as int)),
            r is Err <==> final(self)@.failed,
            final(final(self).target())@ == final(old(self).target())@,
    {
        self.serialize_i64(v as i64)
    }

    /// Writes a signed integer in decimal.
    pub fn serialize_i16(&mut self, v: i16) -> (r: Result<(), Error>)
        requires
            old(self).wf(),
        ensures
            final(self).wf(),
            final(self)@ == old(self)@.leaf(int_text(v as int)),
            old(self)@.leaf_obeys(int_text(v as int)),
            r is Err <==> final(self)@.failed,
            final(final(self).target())@ == final(old(self).target())@,
    {
        self.serialize_i64(v as i64)
    }

    /// Writes a signed integer in decimal.
    pub fn serialize_i32(&mut self, v: i32) -> (r: Result<(), Error>)
        requires
            old(self).wf(),
        ensures
            final(self).wf(),
            final(self)@ == old(self)@.leaf(int_text(v as int)),
            old(self)@.leaf_obeys(int_text(v as int)),
            r is Err <==> final(self)@.failed,
            final(final(self).target())@ == final(old(self).target())@,
    {
        self.serialize_i64(v as i64)
    }

    /// Writes an unsigned integer in decimal.
    pub fn serialize_u8(&mut self, v: u8) -> (r: Result<(), Error>)
        requires
            old(self).wf(),
        ensures
            final(self).wf(),
            final(self)@ == old(self)@.leaf(int_text(v as int)),
            old(self)@.leaf_obeys(int_text(v as int)),
            r is Err <==> final(self)@.failed,
            final(final(self).target())@ == final(old(self).target())@,
    {
        self.serialize_u64(v as u64)
    }

    /// Writes an unsigned integer in decimal.
    pub fn serialize_u16(&mut self, v: u16) -> (r: Result<(), Error>)
        requires
            old(self).wf(),
        ensures
            final(self).wf(),
            final(self)@ == old(self)@.leaf(int_text(v as int)),
            old(self)@.leaf_obeys(int_text(v as int)),
            r is Err <==> final(self)@.failed,
            final(final(self).target())@ == final(old(self).target())@,
    {
        self.serialize_u64(v as u64)
    }

    /// Writes an unsigned integer in decimal.
    pub fn serialize_u32(&mut self, v: u32) -> (r: Result<(), Error>)
        requires
            old(self).wf(),
        ensures
            final(self).wf(),
            final(self)@ == old(self)@.leaf(int_text(v as int)),
            old(self)@.leaf_obeys(int_text(v as int)),
            r is Err <==> final(self)@.failed,
            final(final(self).target())@ == final(old(self).target())@,
    {
        self.serialize_u64(v as u64)
    }

    /// Writes a character as its UTF-8 encoding.
    pub fn serialize_char(&mut self, v: char) -> (r: Result<(), Error>)
        requires
            old(self).wf(),
        ensures
            final(self).wf(),
            final(self)@ == old(self)@.leaf(encode_utf8(seq![v])),
            old(self)@.leaf_obeys(encode_utf8(seq![v])),
            r is Err <==> final(self)@.failed,
            final(final(self).target())@ == final(old(self).target())@,
    {
        let mut buffer: [u8; 4] = [0, 0, 0, 0];
        let text = char_utf8(v, &mut buffer);
        self.field(text)
    }

    /// Writes a string as its UTF-8 encoding.
    pub fn serialize_str(&mut self, v: &str) -> (r: Result<(), Error>)
        requires
            old(self).wf(),
        ensures
            final(self).wf(),
            final(self)@ == old(self)@.leaf(encode_utf8(v@)),
            old(self)@.leaf_obeys(encode_utf8(v@)),
            r is Err <==> final(self)@.failed,
            final(final(self).target())@ == final(old(self).target())@,
    {
        self.field(v.as_bytes())
    }

    /// Writes bytes as they are.
    pub fn serialize_bytes(&mut self, v: &[u8]) -> (r: Result<(), Error>)
        requires
            old(self).wf(),
        ensures
            final(self).wf(),
            final(self)@ == old(self)@.leaf(v@),
            old(self)@.leaf_obeys(v@),
            r is Err <==> final(self)@.failed,
            final(final(self).target())@ == final(old(self).target())@,
    {
        self.field(v)
    }

    /// Writes an optional value that is not there: an empty field.
    pub fn serialize_none(&mut self) -> (r: Result<(), Error>)
        requires
            old(self).wf(),
        ensures
            final(self).wf(),
            final(self)@ == old(self)@.leaf(Seq::empty()),
            old(self)@.leaf_obeys(Seq::empty()),
            r is Err <==> final(self)@.failed,
            final(final(self).target())@ == final(old(self).target())@,
    {
        let text: [u8; 0] = [];
        assert(text@ =~= Seq::<u8>::empty());
        self.field(text.as_slice())
    }

    /// Writes the unit value: an empty field.
    pub fn serialize_unit(&mut self) -> (r: Result<(), Error>)
        requires
            old(self).wf(),
        ensures
            final(self).wf(),
            final(self)@ == old(self)@.leaf(Seq::empty()),
            old(self)@.leaf_obeys(Seq::empty()),
            r is Err <==> final(self)@.failed,
            final(final(self).target())@ == final(old(self).target())@,
    {
        let text: [u8; 0] = [];
        assert(text@ =~= Seq::<u8>::empty());
        self.field(text.as_slice())
    }

    /// Writes a struct without fields: an empty field, as for the unit
    /// value. Its name is not written.
    pub fn serialize_unit_struct(&mut self, name: &str) -> (r: Result<(), Error>)
        requires
            old(self).wf(),
        ensures
            final(self).wf(),
            final(self)@ == old(self)@.leaf(Seq::empty()),
            old(self)@.leaf_obeys(Seq::empty()),
            r is Err <==> final(self)@.failed,
            final(final(self).target())@ == final(old(self).target())@,
    {
        self.serialize_unit()
    }

    /// Writes a variant without data: the name of the variant.
    pub fn serialize_unit_variant(&mut self, name: &str, variant_index: u32, variant: &str) -> (r:
        Result<(), Error>)
        requires
            old(self).wf(),
        ensures
            final(self).wf(),
            final(self)@ == old(self)@.leaf(encode_utf8(variant@)),
            old(self)@.leaf_obeys(encode_utf8(variant@)),
            r is Err <==> final(self)@.failed,
            final(final(self).target())@ == final(old(self).target())@,
    {
        self.field(variant.as_bytes())
    }

    /// Writes an optional value that is there: the value itself.
    pub fn serialize_some(&mut self, value: &Value) -> (r: Result<(), Error>)
        requires
            old(self).wf(),
        ensures
            final(self).wf(),
            final(self)@ == old(self)@.leaves(value@.leaves()),
            old(self)@.leaves_obey(value@.leaves()),
            r is Err <==> final(self)@.failed,
            final(final(self).target())@ == final(old(self).target())@,
        decreases value, 2nat,
    {
        self.serialize_value(value)
    }

    /// Writes a wrapper around one value: the value itself.
    pub fn serialize_newtype_struct(&mut self, name: &str, value: &Value) -> (r: Result<(), Error>)
        requires
            old(self).wf(),
        ensures
            final(self).wf(),
            final(self)@ == old(self)@.leaves(value@.leaves()),
            old(self)@.leaves_obey(value@.leaves()),
            r is Err <==> final(self)@.failed,
            final(final(self).target())@ == final(old(self).target())@,
        decreases value, 2nat,
    {
        self.serialize_value(value)
    }

    /// Writes the values of a composite one after the other. The composite
    /// itself leaves no trace in the record.
    #[verifier::loop_isolation(false)]
    fn serialize_all(&mut self, items: &Vec<Value>) -> (r: Result<(), Error>)
        requires
            old(self).wf(),
        ensures
            final(self).wf(),
            final(self)@ == old(self)@.leaves(Tree::leaves_of(Value::trees(items@))),
            old(self)@.leaves_obey(Tree::leaves_of(Value::trees(items@))),
            r is Err <==> final(self)@.failed,
            final(final(self).target())@ == final(old(self).target())@,
        decreases items, 0nat,
    {
        let ghost start = self@;
        let ghost all = Value::trees(items@);
        let ghost target = final(self.output)@;
        if self.failed {
            proof {
                lemma_failed_absorbs(start, Tree::leaves_of(all));
                lemma_failed_obeys(start, Tree::leaves_of(all));
            }
            return Err(Error::Overflow);
        }
        proof {
            lemma_trees(items@);
            assert(all.take(0) == Seq::<Tree>::empty());
        }
        let ghost last = *final(self);
        let mut compound = Compound::new(self);
        let mut i: usize = 0;
        while i < items.len()
            invariant
                i <= items.len(),
                compound.serializer.wf(),
                !compound.serializer.failed,
                start == old(self)@,
                target == final(old(self).output)@,
                all == Value::trees(items@),
                all.len() == items@.len(),
                compound.serializer@ == start.leaves(Tree::leaves_of(all.take(i as int))),
                start.leaves_obey(Tree::leaves_of(all.take(i as int))),
                final(compound.serializer.output)@ == target,
                *final(compound.serializer) == last,
            decreases items.len() - i,
        {
            let r = compound.element(&items[i]);
            proof {
                lemma_trees(items@);
                lemma_leaves_of_step(all, i as int);
                lemma_leaves_concat(start, Tree::leaves_of(all.take(i as int)), all[i as int].leaves());
                lemma_leaves_obey_concat(
                    start,
                    Tree::leaves_of(all.take(i as int)),
                    all[i as int].leaves(),
                );
            }
            if r.is_err() {
                proof {
                    let done = all.take(i + 1);
                    let rest = all.skip(i + 1);
                    assert(all == done + rest);
                    lemma_leaves_of_concat(done, rest);
                    lemma_leaves_concat(start, Tree::leaves_of(done), Tree::leaves_of(rest));
                    lemma_failed_absorbs(compound.serializer@, Tree::leaves_of(rest));
                    lemma_failed_obeys(compound.serializer@, Tree::leaves_of(rest));
                    lemma_leaves_obey_concat(start, Tree::leaves_of(done), Tree::leaves_of(rest));
                }
                return r;
            }
            i = i + 1;
        }
        proof {
            assert(all.take(i as int) == all);
        }
        compound.end()
    }

    /// Writes a described value: each of its scalar leaves becomes one field
    /// of the record, in order, and nothing else is written.
    pub fn serialize_value(&mut self, value: &Value) -> (r: Result<(), Error>)
        requires
            old(self).wf(),
        ensures
            final(self).wf(),
            final(self)@ == old(self)@.leaves(value@.leaves()),
            old(self)@.leaves_obey(value@.leaves()),
            r is Err <==> final(self)@.failed,
            final(final(self).target())@ == final(old(self).target())@,
        decreases value, 1nat,
    {
        proof {
            lemma_leaves_one(self@, value@.leaves()[0]);
        }
        let ghost before = self@;
        let r = match value {
            Value::Bool(v) => self.serialize_bool(*v),
            Value::I8(v) => self.serialize_i8(*v),
            Value::I16(v) => self.serialize_i16(*v),
            Value::I32(v) => self.serialize_i32(*v),
            Value::I64(v) => self.serialize_i64(*v),
            Value::U8(v) => self.serialize_u8(*v),
            Value::U16(v) => self.serialize_u16(*v),
            Value::U32(v) => self.serialize_u32(*v),
            Value::U64(v) => self.serialize_u64(*v),
            Value::Char(c) => self.serialize_char(*c),
            Value::Str(s) => self.serialize_str(s.as_str()),
            Value::Bytes(b) => self.serialize_bytes(b.as_slice()),
            Value::Absent => self.serialize_none(),
            Value::Present(inner) => self.serialize_some(inner),
            Value::Unit => self.serialize_unit(),
            Value::UnitStruct(name) => self.serialize_unit_struct(name.as_str()),
            Value::UnitVariant(name) => self.serialize_unit_variant(name.as_str(), 0, name.as_str()),
            Value::Newtype(inner) => self.serialize_newtype_struct("", inner),
            Value::List(items) => self.serialize_all(items),
            Value::Tuple(items) => self.serialize_all(items),
            Value::Struct(items) => self.serialize_all(items),
        };
        proof {
            let texts = value@.leaves();
            if texts.len() == 1 && before.leaf_obeys(texts[0]) {
                assert(texts == seq![texts[0]]);
                lemma_leaves_obey_one(before, texts[0]);
            }
        }
        r
    }

    /// Returns the number of bytes written. It never exceeds the length of
    /// the output buffer, whether or not the buffer was too small.
    pub fn bytes_written(&self) -> (n: usize)
        requires
            self.wf(),
        ensures
            n == self@.nwritten,
            n <= self@.buffer.len(),
    {
        self.nwritten
    }
}

/// The elements of a composite on their way into the record.
///
/// A composite leaves no trace in the record: its elements are written as
/// they come, and the serializer alone decides where delimiters go.
pub struct Compound<'a, 'b> {
    serializer: &'a mut Serializer<'b>,
}

impl<'a, 'b> Compound<'a, 'b> {
    /// Begins a composite.
    fn new(serializer: &'a mut Serializer<'b>) -> (c: Self)
        ensures
            *c.serializer == *old(serializer),
            *final(c.serializer) == *final(serializer),
    {
        Compound { serializer }
    }

    /// Writes one element of the composite.
    fn element(&mut self, value: &Value) -> (r: Result<(), Error>)
        requires
            old(self).serializer.wf(),
        ensures
            final(self).serializer.wf(),
            final(self).serializer@ == old(self).serializer@.leaves(value@.leaves()),
            old(self).serializer@.leaves_obey(value@.leaves()),
            r is Err <==> final(self).serializer@.failed,
            final(final(self).serializer.output)@ == final(old(self).serializer.output)@,
            *final(final(self).serializer) == *final(old(self).serializer),
        decreases value, 2nat,
    {
        self.serializer.serialize_value(value)
    }

    /// Ends the composite. Nothing is written for it.
    fn end(self) -> (r: Result<(), Error>)
        ensures
            r is Ok,
            *final(self.serializer) == *old(self.serializer),
    {
        Ok(())
    }
}

/// The compound of the shapes that a flat record cannot hold: variants that
/// carry data, and maps. A [`Value`] cannot describe one, so no serializer
/// ever begins one.
pub struct Unreachable;

} // verus!
