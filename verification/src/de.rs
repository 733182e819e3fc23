//! Decoding: one CSV record to one described value.

use vstd::prelude::*;
use vstd::utf8::encode_utf8;
use vstd::string::StringSliceAdditionalSpecFns;
use crate::codec::{
    bool_value, char_value, int_value, parse_bool, parse_char, parse_i16, parse_i32, parse_i64,
    parse_i8, parse_str, parse_u16, parse_u32, parse_u64, parse_u8, str_value,
};
use crate::value::{Shape, Tree, Value};
use crate::tokenizer::{
    build_tokenizer, built_tokenizer, default_builder, default_dialect, read_field, read_step,
    rewind, rewound, set_delimiter, set_line_breaks, set_quote, FieldEnd, Tokenizer,
};

verus! {

/// This type represents all possible errors that can occur when deserializing CSV data.
#[derive(Debug, PartialEq, Eq, Clone, Copy)]
pub enum Error {
    /// Buffer overflow.
    Overflow,
    /// Expected an empty field.
    ExpectedEmpty,
    /// Invalid boolean value. Expected either `true` or `false`.
    InvalidBool,
    /// Invalid integer.
    InvalidInt,
    /// Invalid floating-point number.
    InvalidFloat,
    /// Invalid UTF-8 encoded character.
    InvalidUtf8Char,
    /// Invalid UTF-8 encoded string.
    InvalidUtf8String,
    /// Error with a custom message had to be discarded.
    Custom,
}

impl Error {
    /// The text that describes this error.
    pub open spec fn description(self) -> Seq<char> {
        match self {
            Error::Overflow => "Buffer overflow."@,
            Error::ExpectedEmpty => "Expected an empty field."@,
            Error::InvalidBool => "Invalid boolean value. Expected either `true` or `false`."@,
            Error::InvalidInt => "Invalid integer."@,
            Error::InvalidFloat => "Invalid floating-point number."@,
            Error::InvalidUtf8Char => "Invalid UTF-8 encoded character."@,
            Error::InvalidUtf8String => "Invalid UTF-8 encoded string."@,
            Error::Custom => "CSV does not match deserializer's expected format."@,
        }
    }

    /// Describes this error for a diagnostic.
    pub fn to_string(&self) -> (text: String)
        ensures
            text@ == self.description(),
    {
        match self {
            Error::Overflow => "Buffer overflow.".to_owned(),
            Error::ExpectedEmpty => "Expected an empty field.".to_owned(),
            Error::InvalidBool => "Invalid boolean value. Expected either `true` or `false`.".to_owned(),
            Error::InvalidInt => "Invalid integer.".to_owned(),
            Error::InvalidFloat => "Invalid floating-point number.".to_owned(),
            Error::InvalidUtf8Char => "Invalid UTF-8 encoded character.".to_owned(),
            Error::InvalidUtf8String => "Invalid UTF-8 encoded string.".to_owned(),
            Error::Custom => "CSV does not match deserializer's expected format.".to_owned(),
        }
    }
}

/// What a [`Deserializer`] has before it: the tokenizer as it stands, the
/// input and how much of it is read, and the field that is buffered, if any.
pub ghost struct Source {
    /// The tokenizer, as the calls so far have left it.
    pub tokenizer: Tokenizer,
    /// The whole input.
    pub input: Seq<u8>,
    /// The number of input bytes read.
    pub nread: nat,
    /// The capacity of the buffer that holds one field.
    pub room: nat,
    /// The field read last was the last of its record.
    pub record_end: bool,
    /// A field that has been read and not been used yet.
    pub peeked: Option<Seq<u8>>,
}

impl Source {
    /// A source that has read nothing of `input`.
    pub open spec fn fresh(tokenizer: Tokenizer, input: Seq<u8>, room: nat) -> Source {
        Source { tokenizer, input, nread: 0, room, record_end: false, peeked: None }
    }

    /// Whether this source is a later state of `before`: the same input,
    /// no less of it read, the same buffer, and a tokenizer of the same
    /// configuration.
    pub open spec fn follows(self, before: Source) -> bool {
        &&& self.input == before.input
        &&& before.nread <= self.nread
        &&& self.room == before.room
        &&& rewound(self.tokenizer) == rewound(before.tokenizer)
    }

    /// What a source still has to give: two for each byte of input that is
    /// not read, and one for a buffered field.
    pub open spec fn weight(self) -> nat {
        2 * self.unread() + if self.peeked is Some {
            1nat
        } else {
            0nat
        }
    }

    /// The input that is not read yet.
    pub open spec fn rest(self) -> Seq<u8> {
        self.input.skip(self.nread as int)
    }

    /// The number of input bytes that are not read yet.
    pub open spec fn unread(self) -> nat {
        if self.nread <= self.input.len() {
            (self.input.len() - self.nread) as nat
        } else {
            0
        }
    }

    /// The next field from the tokenizer, and the source behind it.
    ///
    /// What the tokenizer took is read, however the call ended. A field that
    /// did not fit the buffer is an overflow. When the input ran out, what
    /// the buffer holds is the field. Once a field has ended its record,
    /// the record stays ended.
    pub open spec fn fetch(self) -> (Result<Seq<u8>, Error>, Source) {
        let step = read_step(self.tokenizer, self.rest(), self.room);
        let next = Source {
            tokenizer: step.next,
            nread: self.nread + step.nin,
            record_end: match step.end {
                FieldEnd::Field { record_end } => self.record_end || record_end,
                _ => self.record_end,
            },
            ..self
        };
        match step.end {
            FieldEnd::OutputFull => (Err(Error::Overflow), next),
            _ => (Ok(step.bytes), next),
        }
    }

    /// The next field, left in the buffer for the read that follows.
    pub open spec fn peek(self) -> (Result<Seq<u8>, Error>, Source) {
        match self.peeked {
            Some(bytes) => (Ok(bytes), self),
            None => {
                let (r, next) = self.fetch();
                match r {
                    Ok(bytes) => (Ok(bytes), Source { peeked: Some(bytes), ..next }),
                    Err(e) => (Err(e), next),
                }
            },
        }
    }

    /// Whether an optional value is there: it is unless the next field is
    /// empty. An empty field is used up by the answer; any other stays
    /// buffered for the value itself.
    pub open spec fn present(self) -> (Result<bool, Error>, Source) {
        let (r, next) = self.peek();
        match r {
            Err(e) => (Err(e), next),
            Ok(text) => if text.len() == 0 {
                (Ok(false), Source { peeked: None, ..next })
            } else {
                (Ok(true), next)
            },
        }
    }

    /// The next field: the buffered one if there is one, else one from the
    /// tokenizer.
    pub open spec fn read(self) -> (Result<Seq<u8>, Error>, Source) {
        match self.peeked {
            Some(bytes) => (Ok(bytes), Source { peeked: None, ..self }),
            None => self.fetch(),
        }
    }
}

/// The boolean of a field, or the error for a field that is none.
pub open spec fn bool_field(text: Seq<u8>) -> Result<bool, Error> {
    match bool_value(text) {
        Some(v) => Ok(v),
        None => Err(Error::InvalidBool),
    }
}

/// The integer of a field, or the error for a field that is no decimal
/// integer between `min` and `max`.
pub open spec fn int_field(text: Seq<u8>, min: int, max: int) -> Result<int, Error> {
    match int_value(text, min, max) {
        Some(v) => Ok(v),
        None => Err(Error::InvalidInt),
    }
}

/// The character of a field, or the error for a field that is not exactly
/// one code point.
pub open spec fn char_field(text: Seq<u8>) -> Result<char, Error> {
    match char_value(text) {
        Some(c) => Ok(c),
        None => Err(Error::InvalidUtf8Char),
    }
}

/// The string of a field, or the error for a field that is not UTF-8.
pub open spec fn str_field(text: Seq<u8>) -> Result<Seq<char>, Error> {
    match str_value(text) {
        Some(s) => Ok(s),
        None => Err(Error::InvalidUtf8String),
    }
}

/// Nothing for an empty field, or the error for a field that holds
/// something.
pub open spec fn unit_field(text: Seq<u8>) -> Result<(), Error> {
    if text.len() == 0 {
        Ok(())
    } else {
        Err(Error::ExpectedEmpty)
    }
}

/// The place of the first name that `text` spells.
pub open spec fn variant_index(names: Seq<String>, text: Seq<u8>) -> Option<int>
    decreases names.len(),
{
    if names.len() == 0 {
        None
    } else {
        match variant_index(names.drop_last(), text) {
            Some(i) => Some(i),
            None => if encode_utf8(names.last()@) == text {
                Some(names.len() - 1)
            } else {
                None
            },
        }
    }
}

/// The variant that a field names, or the error for a field that names
/// none of them.
pub open spec fn variant_field(names: Seq<String>, text: Seq<u8>) -> Result<int, Error> {
    match variant_index(names, text) {
        Some(i) => Ok(i),
        None => Err(Error::Custom),
    }
}

/// Whether a shape asks for exactly one field.
pub open spec fn is_scalar(shape: Shape) -> bool {
    !(shape is Optional || shape is Newtype || shape is List || shape is Tuple || shape is Struct)
}

/// The value that one field stands for when a scalar of the given shape is
/// asked for.
pub open spec fn scalar(shape: Shape, text: Seq<u8>) -> Result<Tree, Error> {
    match shape {
        Shape::Bool => match bool_field(text) {
            Ok(v) => Ok(Tree::Bool(v)),
            Err(e) => Err(e),
        },
        Shape::I8 => match int_field(text, i8::MIN as int, i8::MAX as int) {
            Ok(v) => Ok(Tree::I8(v as i8)),
            Err(e) => Err(e),
        },
        Shape::I16 => match int_field(text, i16::MIN as int, i16::MAX as int) {
            Ok(v) => Ok(Tree::I16(v as i16)),
            Err(e) => Err(e),
        },
        Shape::I32 => match int_field(text, i32::MIN as int, i32::MAX as int) {
            Ok(v) => Ok(Tree::I32(v as i32)),
            Err(e) => Err(e),
        },
        Shape::I64 => match int_field(text, i64::MIN as int, i64::MAX as int) {
            Ok(v) => Ok(Tree::I64(v as i64)),
            Err(e) => Err(e),
        },
        Shape::U8 => match int_field(text, 0, u8::MAX as int) {
            Ok(v) => Ok(Tree::U8(v as u8)),
            Err(e) => Err(e),
        },
        Shape::U16 => match int_field(text, 0, u16::MAX as int) {
            Ok(v) => Ok(Tree::U16(v as u16)),
            Err(e) => Err(e),
        },
        Shape::U32 => match int_field(text, 0, u32::MAX as int) {
            Ok(v) => Ok(Tree::U32(v as u32)),
            Err(e) => Err(e),
        },
        Shape::U64 => match int_field(text, 0, u64::MAX as int) {
            Ok(v) => Ok(Tree::U64(v as u64)),
            Err(e) => Err(e),
        },
        Shape::Char => match char_field(text) {
            Ok(c) => Ok(Tree::Char(c)),
            Err(e) => Err(e),
        },
        Shape::Str => match str_field(text) {
            Ok(s) => Ok(Tree::Str(s)),
            Err(e) => Err(e),
        },
        Shape::Bytes => Ok(Tree::Bytes(text)),
        Shape::Unit => match unit_field(text) {
            Ok(_) => Ok(Tree::Unit),
            Err(e) => Err(e),
        },
        Shape::UnitStruct(name) => match unit_field(text) {
            Ok(_) => Ok(Tree::UnitStruct(name@)),
            Err(e) => Err(e),
        },
        Shape::Variant(names) => match variant_field(names@, text) {
            Ok(i) => Ok(Tree::UnitVariant(names@[i]@)),
            Err(e) => Err(e),
        },
        _ => Ok(Tree::Unit),
    }
}

/// The value of the given shape that a source holds, and the source behind
/// it.
///
/// A scalar takes one field. A composite takes the fields of its parts, one
/// part after the other; an optional value looks at one field and is absent
/// if that field is empty.
pub open spec fn decode(shape: Shape, s: Source) -> (Result<Tree, Error>, Source)
    decreases shape, 0nat, 0nat,
{
    match shape {
        Shape::Optional(inner) => {
            let (r, next) = s.present();
            match r {
                Err(e) => (Err(e), next),
                Ok(false) => (Ok(Tree::Absent), next),
                Ok(true) => {
                    let (r, last) = decode(*inner, next);
                    match r {
                        Ok(tree) => (Ok(Tree::Present(Box::new(tree))), last),
                        Err(e) => (Err(e), last),
                    }
                },
            }
        },
        Shape::Newtype(inner) => {
            let (r, last) = decode(*inner, s);
            match r {
                Ok(tree) => (Ok(Tree::Newtype(Box::new(tree))), last),
                Err(e) => (Err(e), last),
            }
        },
        Shape::List(element) => {
            let (r, last) = decode_list(*element, s, Seq::empty());
            match r {
                Ok(items) => (Ok(Tree::List(items)), last),
                Err(e) => (Err(e), last),
            }
        },
        Shape::Tuple(shapes) => {
            let (r, last) = decode_all(shapes@, s);
            match r {
                Ok(items) => (Ok(Tree::Tuple(items)), last),
                Err(e) => (Err(e), last),
            }
        },
        Shape::Struct(shapes) => {
            let (r, last) = decode_all(shapes@, s);
            match r {
                Ok(items) => (Ok(Tree::Struct(items)), last),
                Err(e) => (Err(e), last),
            }
        },
        _ => {
            let (r, next) = s.read();
            match r {
                Ok(text) => (scalar(shape, text), next),
                Err(e) => (Err(e), next),
            }
        },
    }
}

/// The next element of a composite: none once the record has ended.
pub open spec fn decode_element(shape: Shape, s: Source) -> (Result<Option<Tree>, Error>, Source)
    decreases shape, 0nat, 1nat,
{
    if s.record_end {
        (Ok(None), s)
    } else {
        let (r, next) = decode(shape, s);
        match r {
            Ok(tree) => (Ok(Some(tree)), next),
            Err(e) => (Err(e), next),
        }
    }
}

/// The elements of a composite of fixed size. Each of them must be there.
pub open spec fn decode_all(shapes: Seq<Shape>, s: Source) -> (Result<Seq<Tree>, Error>, Source)
    decreases shapes, 0nat, 0nat,
{
    if shapes.len() == 0 {
        (Ok(Seq::empty()), s)
    } else {
        let (r, next) = decode_all(shapes.drop_last(), s);
        match r {
            Err(e) => (Err(e), next),
            Ok(items) => {
                let (r, last) = decode_element(shapes.last(), next);
                match r {
                    Err(e) => (Err(e), last),
                    Ok(None) => (Err(Error::Custom), last),
                    Ok(Some(tree)) => (Ok(items.push(tree)), last),
                }
            },
        }
    }
}

/// The elements of a sequence, behind those in `items`: as many as the
/// record has. The sequence ends where the record ends, and behind an
/// element that took nothing: no input and no buffered field.
pub open spec fn decode_list(element: Shape, s: Source, items: Seq<Tree>) -> (
    Result<Seq<Tree>, Error>,
    Source,
)
    decreases element, s.weight() + 1, 0nat,
{
    let (r, next) = decode_element(element, s);
    match r {
        Err(e) => (Err(e), next),
        Ok(None) => (Ok(items), next),
        Ok(Some(tree)) => if next.weight() < s.weight() {
            decode_list(element, next, items.push(tree))
        } else {
            (Ok(items.push(tree)), next)
        },
    }
}

/// Whether what a call returned is the outcome that [`decode`] gives.
pub open spec fn agrees(r: Result<Value, Error>, expected: Result<Tree, Error>) -> bool {
    match expected {
        Ok(tree) => r is Ok && r->Ok_0@ == tree,
        Err(e) => r is Err && r->Err_0 == e,
    }
}

/// Whether the values that a call returned are the outcome that
/// [`decode_all`] or [`decode_list`] gives.
pub open spec fn agree(r: Result<Vec<Value>, Error>, expected: Result<Seq<Tree>, Error>) -> bool {
    match expected {
        Ok(items) => r is Ok && Value::trees(r->Ok_0@) == items,
        Err(e) => r is Err && r->Err_0 == e,
    }
}

/// Once an element of a composite has failed, the composite has failed in
/// the same way, however many elements follow.
pub proof fn lemma_decode_all_fails(shapes: Seq<Shape>, s: Source, n: int)
    requires
        0 <= n <= shapes.len(),
        decode_all(shapes.take(n), s).0 is Err,
    ensures
        decode_all(shapes, s) == decode_all(shapes.take(n), s),
    decreases shapes.len() - n,
{
    if n < shapes.len() {
        assert(shapes.take(n + 1).drop_last() == shapes.take(n));
        lemma_decode_all_fails(shapes, s, n + 1);
    } else {
        assert(shapes.take(n) == shapes);
    }
}

/// A name that is found at a place is found at that place wherever the
/// search ends.
pub proof fn lemma_variant_found(names: Seq<String>, text: Seq<u8>, i: int)
    requires
        0 <= i < names.len(),
        variant_index(names.take(i + 1), text) == Some(i),
    ensures
        variant_index(names, text) == Some(i),
    decreases names.len() - i,
{
    if i + 1 < names.len() {
        lemma_variant_kept(names, text, i, i + 1);
    } else {
        assert(names.take(i + 1) == names);
    }
}

/// The first place found stays the first place found as the search goes on.
pub proof fn lemma_variant_kept(names: Seq<String>, text: Seq<u8>, i: int, n: int)
    requires
        0 <= i < n <= names.len(),
        variant_index(names.take(n), text) == Some(i),
    ensures
        variant_index(names, text) == Some(i),
    decreases names.len() - n,
{
    if n < names.len() {
        assert(names.take(n + 1).drop_last() == names.take(n));
        lemma_variant_kept(names, text, i, n + 1);
    } else {
        assert(names.take(n) == names);
    }
}

/// Whether two byte slices hold the same bytes.
pub fn same_bytes(a: &[u8], b: &[u8]) -> (r: bool)
    ensures
        r == (a@ == b@),
{
    if a.len() != b.len() {
        return false;
    }
    let mut i: usize = 0;
    while i < a.len()
        invariant
            i <= a.len(),
            a@.len() == b@.len(),
            forall|j: int| 0 <= j < i ==> a@[j] == b@[j],
        decreases a.len() - i,
    {
        if a[i] != b[i] {
            return false;
        }
        i = i + 1;
    }
    assert(a@ =~= b@);
    true
}

/// Wrapper for [`csv_core::Reader`] that deserializes described values.
///
/// `N` is a capacity of an internal buffer that's used to temporarily store unescaped fields.
#[derive(Debug)]
pub struct Reader<const N: usize> {
    inner: Tokenizer,
    field_buffer: [u8; N],
}

impl<const N: usize> Reader<N> {
    /// The tokenizer every record of this reader starts from.
    pub closed spec fn tokenizer(&self) -> Tokenizer {
        rewound(self.inner)
    }

    /// Constructs a new reader.
    ///
    /// It reads the default dialect: it is built as [`Reader::from_builder`]
    /// builds, from a builder that was handed `,` as the delimiter, `"` as
    /// the quote and the line breaks as the terminator.
    pub fn new() -> (r: Self)
        ensures
            exists|start: csv_core::ReaderBuilder|
                r.tokenizer() == built_tokenizer(#[trigger] default_dialect(start)),
    {
        let mut builder = default_builder();
        let ghost start = builder;
        set_delimiter(&mut builder, 0x2c);
        set_quote(&mut builder, 0x22);
        set_line_breaks(&mut builder);
        let r = Self::from_builder(&builder);
        assert(r.tokenizer() == built_tokenizer(default_dialect(start)));
        r
    }

    /// Constructs a new reader from [`csv_core::ReaderBuilder`].
    pub fn from_builder(builder: &csv_core::ReaderBuilder) -> (r: Self)
        ensures
            r.tokenizer() == built_tokenizer(*builder),
    {
        Reader { inner: build_tokenizer(builder), field_buffer: [0; N] }
    }

    /// Deserializes a given CSV byte slice into a value of the given shape.
    ///
    /// The second element of the resulting tuple is a number of bytes read.
    ///
    /// The value is the one that [`decode`] describes, read by a tokenizer
    /// that starts afresh: nothing but the configuration outlives a call.
    pub fn deserialize(&mut self, shape: &Shape, input: &[u8]) -> (r: Result<(Value, usize), Error>)
        ensures
            final(self).tokenizer() == old(self).tokenizer(),
            ({
                let (expected, end) = decode(
                    *shape,
                    Source::fresh(old(self).tokenizer(), input@, N as nat),
                );
                match expected {
                    Ok(tree) => r is Ok && r->Ok_0.0@ == tree && r->Ok_0.1 == end.nread
                        && end.nread <= input@.len(),
                    Err(e) => r is Err && r->Err_0 == e,
                }
            }),
    {
        let mut deserializer = Deserializer::new(self, input);
        match deserializer.deserialize_value(shape) {
            Ok(value) => Ok((value, deserializer.bytes_read())),
            Err(e) => Err(e),
        }
    }
}

impl<const N: usize> Default for Reader<N> {
    /// A reader with the default configuration, as [`Reader::new`] makes it.
    fn default() -> (r: Self)
        ensures
            exists|start: csv_core::ReaderBuilder|
                r.tokenizer() == built_tokenizer(#[trigger] default_dialect(start)),
    {
        Reader::new()
    }
}

/// A structure for deserializing one record.
#[derive(Debug)]
pub struct Deserializer<'a, const N: usize> {
    reader: &'a mut Reader<N>,
    input: &'a [u8],
    nread: usize,
    record_end: bool,
    peeked: Option<usize>,
}

impl<'a, const N: usize> View for Deserializer<'a, N> {
    type V = Source;

    closed spec fn view(&self) -> Source {
        Source {
            tokenizer: self.reader.inner,
            input: self.input@,
            nread: self.nread as nat,
            room: N as nat,
            record_end: self.record_end,
            peeked: match self.peeked {
                Some(len) => Some(self.reader.field_buffer@.take(len as int)),
                None => None,
            },
        }
    }
}

impl<'a, const N: usize> Deserializer<'a, N> {
    /// The deserializer's invariant: what is read lies within the input, and
    /// a buffered field within the buffer.
    pub closed spec fn wf(&self) -> bool {
        &&& self.nread <= self.input@.len()
        &&& self.peeked matches Some(len) ==> len <= N
    }

    /// The borrowed reader.
    pub closed spec fn reader(&self) -> &'a mut Reader<N> {
        self.reader
    }

    /// Creates a new CSV deserializer that reads a record of `reader` from `input`.
    pub fn new(reader: &'a mut Reader<N>, input: &'a [u8]) -> (d: Self)
        ensures
            d.wf(),
            d@ == Source::fresh(old(reader).tokenizer(), input@, N as nat),
            rewound(d@.tokenizer) == d@.tokenizer,
            *final(d.reader()) == *final(reader),
    {
        rewind(&mut reader.inner);
        Deserializer { reader, input, nread: 0, record_end: false, peeked: None }
    }

    /// Whether the field read last was the last of its record.
    pub fn record_end(&self) -> (end: bool)
        ensures
            end == self@.record_end,
    {
        self.record_end
    }

    /// Returns the number of bytes read.
    pub fn bytes_read(&self) -> (n: usize)
        requires
            self.wf(),
        ensures
            n == self@.nread,
            n <= self@.input.len(),
    {
        self.nread
    }

    /// Reads the next field from the tokenizer into the buffer and returns
    /// its length.
    fn read_bytes_impl(&mut self) -> (r: Result<usize, Error>)
        requires
            old(self).wf(),
            old(self).peeked is None,
        ensures
            final(self).wf(),
            final(self)@.follows(old(self)@),
            *final(final(self).reader()) == *final(old(self).reader()),
            final(self).peeked is None,
            match old(self)@.fetch().0 {
                Ok(bytes) => r is Ok && r->Ok_0 <= N && final(self).reader.field_buffer@.take(
                    r->Ok_0 as int,
                ) == bytes,
                Err(e) => r == Err::<usize, Error>(e),
            },
            final(self)@ == old(self)@.fetch().1,
    {
        let rest = vstd::slice::slice_subrange(self.input, self.nread, self.input.len());
        let (end, nin, nout) = read_field(&mut self.reader.inner, rest, &mut self.reader.field_buffer);
        self.nread = self.nread + nin;
        match end {
            FieldEnd::InputEmpty => {},
            FieldEnd::OutputFull => {
                return Err(Error::Overflow);
            },
            FieldEnd::Field { record_end } => {
                if record_end {
                    self.record_end = true;
                }
            },
            FieldEnd::End => {},
        }
        Ok(nout)
    }

    /// The next field, which stays buffered for the read that follows.
    pub fn peek_bytes(&mut self) -> (r: Result<&[u8], Error>)
        requires
            old(self).wf(),
        ensures
            final(self).wf(),
            final(self)@.follows(old(self)@),
            *final(final(self).reader()) == *final(old(self).reader()),
            match old(self)@.peek().0 {
                Ok(bytes) => r is Ok && r->Ok_0@ == bytes,
                Err(e) => r is Err && r->Err_0 == e,
            },
            final(self)@ == old(self)@.peek().1,
    {
        let len = match self.peeked {
            Some(len) => len,
            None => {
                let len = match self.read_bytes_impl() {
                    Ok(len) => len,
                    Err(e) => {
                        return Err(e);
                    },
                };
                self.peeked = Some(len);
                len
            },
        };
        Ok(vstd::slice::slice_subrange(self.reader.field_buffer.as_slice(), 0, len))
    }

    /// The next field: the buffered one if there is one, else one from the
    /// tokenizer.
    pub fn read_bytes(&mut self) -> (r: Result<&[u8], Error>)
        requires
            old(self).wf(),
        ensures
            final(self).wf(),
            final(self)@.follows(old(self)@),
            *final(final(self).reader()) == *final(old(self).reader()),
            match old(self)@.read().0 {
                Ok(bytes) => r is Ok && r->Ok_0@ == bytes,
                Err(e) => r is Err && r->Err_0 == e,
            },
            final(self)@ == old(self)@.read().1,
    {
        let len = match self.peeked {
            Some(len) => {
                self.peeked = None;
                len
            },
            None => {
                match self.read_bytes_impl() {
                    Ok(len) => len,
                    Err(e) => {
                        return Err(e);
                    },
                }
            },
        };
        Ok(vstd::slice::slice_subrange(self.reader.field_buffer.as_slice(), 0, len))
    }

    /// Reads a boolean: the field `true` or the field `false`.
    pub fn deserialize_bool(&mut self) -> (r: Result<bool, Error>)
        requires
            old(self).wf(),
        ensures
            final(self).wf(),
            final(self)@.follows(old(self)@),
            *final(final(self).reader()) == *final(old(self).reader()),
            match old(self)@.read().0 {
                Ok(text) => r == bool_field(text),
                Err(e) => r is Err && r->Err_0 == e,
            },
            final(self)@ == old(self)@.read().1,
    {
        let text = match self.read_bytes() {
            Ok(text) => text,
            Err(e) => {
                return Err(e);
            },
        };
        match parse_bool(text) {
            Some(v) => Ok(v),
            None => Err(Error::InvalidBool),
        }
    }

    /// Reads a decimal integer that fits an `i8`.
    pub fn deserialize_i8(&mut self) -> (r: Result<i8, Error>)
        requires
            old(self).wf(),
        ensures
            final(self).wf(),
            final(self)@.follows(old(self)@),
            *final(final(self).reader()) == *final(old(self).reader()),
            match old(self)@.read().0 {
                Ok(text) => match int_field(text, i8::MIN as int, i8::MAX as int) {
                    Ok(v) => r == Ok::<i8, Error>(v as i8),
                    Err(e) => r is Err && r->Err_0 == e,
                },
                Err(e) => r is Err && r->Err_0 == e,
            },
            final(self)@ == old(self)@.read().1,
    {
        let text = match self.read_bytes() {
            Ok(text) => text,
            Err(e) => {
                return Err(e);
            },
        };
        match parse_i8(text) {
            Some(v) => Ok(v),
            None => Err(Error::InvalidInt),
        }
    }

    /// Reads a decimal integer that fits an `i16`.
    pub fn deserialize_i16(&mut self) -> (r: Result<i16, Error>)
        requires
            old(self).wf(),
        ensures
            final(self).wf(),
            final(self)@.follows(old(self)@),
            *final(final(self).reader()) == *final(old(self).reader()),
            match old(self)@.read().0 {
                Ok(text) => match int_field(text, i16::MIN as int, i16::MAX as int) {
                    Ok(v) => r == Ok::<i16, Error>(v as i16),
                    Err(e) => r is Err && r->Err_0 == e,
                },
                Err(e) => r is Err && r->Err_0 == e,
            },
            final(self)@ == old(self)@.read().1,
    {
        let text = match self.read_bytes() {
            Ok(text) => text,
            Err(e) => {
                return Err(e);
            },
        };
        match parse_i16(text) {
            Some(v) => Ok(v),
            None => Err(Error::InvalidInt),
        }
    }

    /// Reads a decimal integer that fits an `i32`.
    pub fn deserialize_i32(&mut self) -> (r: Result<i32, Error>)
        requires
            old(self).wf(),
        ensures
            final(self).wf(),
            final(self)@.follows(old(self)@),
            *final(final(self).reader()) == *final(old(self).reader()),
            match old(self)@.read().0 {
                Ok(text) => match int_field(text, i32::MIN as int, i32::MAX as int) {
                    Ok(v) => r == Ok::<i32, Error>(v as i32),
                    Err(e) => r is Err && r->Err_0 == e,
                },
                Err(e) => r is Err && r->Err_0 == e,
            },
            final(self)@ == old(self)@.read().1,
    {
        let text = match self.read_bytes() {
            Ok(text) => text,
            Err(e) => {
                return Err(e);
            },
        };
        match parse_i32(text) {
            Some(v) => Ok(v),
            None => Err(Error::InvalidInt),
        }
    }

    /// Reads a decimal integer that fits an `i64`.
    pub fn deserialize_i64(&mut self) -> (r: Result<i64, Error>)
        requires
            old(self).wf(),
        ensures
            final(self).wf(),
            final(self)@.follows(old(self)@),
            *final(final(self).reader()) == *final(old(self).reader()),
            match old(self)@.read().0 {
                Ok(text) => match int_field(text, i64::MIN as int, i64::MAX as int) {
                    Ok(v) => r == Ok::<i64, Error>(v as i64),
                    Err(e) => r is Err && r->Err_0 == e,
                },
                Err(e) => r is Err && r->Err_0 == e,
            },
            final(self)@ == old(self)@.read().1,
    {
        let text = match self.read_bytes() {
            Ok(text) => text,
            Err(e) => {
                return Err(e);
            },
        };
        match parse_i64(text) {
            Some(v) => Ok(v),
            None => Err(Error::InvalidInt),
        }
    }

    /// Reads a decimal integer that fits a `u8`.
    pub fn deserialize_u8(&mut self) -> (r: Result<u8, Error>)
        requires
            old(self).wf(),
        ensures
            final(self).wf(),
            final(self)@.follows(old(self)@),
            *final(final(self).reader()) == *final(old(self).reader()),
            match old(self)@.read().0 {
                Ok(text) => match int_field(text, 0, u8::MAX as int) {
                    Ok(v) => r == Ok::<u8, Error>(v as u8),
                    Err(e) => r is Err && r->Err_0 == e,
                },
                Err(e) => r is Err && r->Err_0 == e,
            },
            final(self)@ == old(self)@.read().1,
    {
        let text = match self.read_bytes() {
            Ok(text) => text,
            Err(e) => {
                return Err(e);
            },
        };
        match parse_u8(text) {
            Some(v) => Ok(v),
            None => Err(Error::InvalidInt),
        }
    }

    /// Reads a decimal integer that fits a `u16`.
    pub fn deserialize_u16(&mut self) -> (r: Result<u16, Error>)
        requires
            old(self).wf(),
        ensures
            final(self).wf(),
            final(self)@.follows(old(self)@),
            *final(final(self).reader()) == *final(old(self).reader()),
            match old(self)@.read().0 {
                Ok(text) => match int_field(text, 0, u16::MAX as int) {
                    Ok(v) => r == Ok::<u16, Error>(v as u16),
                    Err(e) => r is Err && r->Err_0 == e,
                },
                Err(e) => r is Err && r->Err_0 == e,
            },
            final(self)@ == old(self)@.read().1,
    {
        let text = match self.read_bytes() {
            Ok(text) => text,
            Err(e) => {
                return Err(e);
            },
        };
        match parse_u16(text) {
            Some(v) => Ok(v),
            None => Err(Error::InvalidInt),
        }
    }

    /// Reads a decimal integer that fits a `u32`.
    pub fn deserialize_u32(&mut self) -> (r: Result<u32, Error>)
        requires
            old(self).wf(),
        ensures
            final(self).wf(),
            final(self)@.follows(old(self)@),
            *final(final(self).reader()) == *final(old(self).reader()),
            match old(self)@.read().0 {
                Ok(text) => match int_field(text, 0, u32::MAX as int) {
                    Ok(v) => r == Ok::<u32, Error>(v as u32),
                    Err(e) => r is Err && r->Err_0 == e,
                },
                Err(e) => r is Err && r->Err_0 == e,
            },
            final(self)@ == old(self)@.read().1,
    {
        let text = match self.read_bytes() {
            Ok(text) => text,
            Err(e) => {
                return Err(e);
            },
        };
        match parse_u32(text) {
            Some(v) => Ok(v),
            None => Err(Error::InvalidInt),
        }
    }

    /// Reads a decimal integer that fits a `u64`.
    pub fn deserialize_u64(&mut self) -> (r: Result<u64, Error>)
        requires
            old(self).wf(),
        ensures
            final(self).wf(),
            final(self)@.follows(old(self)@),
            *final(final(self).reader()) == *final(old(self).reader()),
            match old(self)@.read().0 {
                Ok(text) => match int_field(text, 0, u64::MAX as int) {
                    Ok(v) => r == Ok::<u64, Error>(v as u64),
                    Err(e) => r is Err && r->Err_0 == e,
                },
                Err(e) => r is Err && r->Err_0 == e,
            },
            final(self)@ == old(self)@.read().1,
    {
        let text = match self.read_bytes() {
            Ok(text) => text,
            Err(e) => {
                return Err(e);
            },
        };
        match parse_u64(text) {
            Some(v) => Ok(v),
            None => Err(Error::InvalidInt),
        }
    }

    /// Reads a character: a field that is exactly one code point.
    pub fn deserialize_char(&mut self) -> (r: Result<char, Error>)
        requires
            old(self).wf(),
        ensures
            final(self).wf(),
            final(self)@.follows(old(self)@),
            *final(final(self).reader()) == *final(old(self).reader()),
            match old(self)@.read().0 {
                Ok(text) => r == char_field(text),
                Err(e) => r is Err && r->Err_0 == e,
            },
            final(self)@ == old(self)@.read().1,
    {
        let text = match self.read_bytes() {
            Ok(text) => text,
            Err(e) => {
                return Err(e);
            },
        };
        match parse_char(text) {
            Some(c) => Ok(c),
            None => Err(Error::InvalidUtf8Char),
        }
    }

    /// Reads a string: a field that is UTF-8.
    pub fn deserialize_str(&mut self) -> (r: Result<&str, Error>)
        requires
            old(self).wf(),
        ensures
            final(self).wf(),
            final(self)@.follows(old(self)@),
            *final(final(self).reader()) == *final(old(self).reader()),
            match old(self)@.read().0 {
                Ok(text) => match str_field(text) {
                    Ok(s) => r is Ok && r->Ok_0@ == s,
                    Err(e) => r is Err && r->Err_0 == e,
                },
                Err(e) => r is Err && r->Err_0 == e,
            },
            final(self)@ == old(self)@.read().1,
    {
        let text = match self.read_bytes() {
            Ok(text) => text,
            Err(e) => {
                return Err(e);
            },
        };
        match parse_str(text) {
            Some(s) => Ok(s),
            None => Err(Error::InvalidUtf8String),
        }
    }

    /// Reads a field as the bytes it holds.
    pub fn deserialize_bytes(&mut self) -> (r: Result<&[u8], Error>)
        requires
            old(self).wf(),
        ensures
            final(self).wf(),
            final(self)@.follows(old(self)@),
            *final(final(self).reader()) == *final(old(self).reader()),
            match old(self)@.read().0 {
                Ok(text) => r is Ok && r->Ok_0@ == text,
                Err(e) => r is Err && r->Err_0 == e,
            },
            final(self)@ == old(self)@.read().1,
    {
        self.read_bytes()
    }

    /// Looks at the next field to tell whether an optional value is there.
    ///
    /// An empty field means that it is not, and is used up. Any other field
    /// stays buffered: the value is read from those same bytes, and the
    /// tokenizer is not asked twice.
    pub fn deserialize_option(&mut self) -> (r: Result<bool, Error>)
        requires
            old(self).wf(),
        ensures
            final(self).wf(),
            final(self)@.follows(old(self)@),
            *final(final(self).reader()) == *final(old(self).reader()),
            r == old(self)@.present().0,
            final(self)@ == old(self)@.present().1,
    {
        let empty = match self.peek_bytes() {
            Ok(text) => text.len() == 0,
            Err(e) => {
                return Err(e);
            },
        };
        if empty {
            self.peeked = None;
            Ok(false)
        } else {
            Ok(true)
        }
    }

    /// Reads the unit value: an empty field.
    pub fn deserialize_unit(&mut self) -> (r: Result<(), Error>)
        requires
            old(self).wf(),
        ensures
            final(self).wf(),
            final(self)@.follows(old(self)@),
            *final(final(self).reader()) == *final(old(self).reader()),
            match old(self)@.read().0 {
                Ok(text) => r == unit_field(text),
                Err(e) => r is Err && r->Err_0 == e,
            },
            final(self)@ == old(self)@.read().1,
    {
        let text = match self.read_bytes() {
            Ok(text) => text,
            Err(e) => {
                return Err(e);
            },
        };
        if text.len() != 0 {
            return Err(Error::ExpectedEmpty);
        }
        Ok(())
    }

    /// Reads a struct without fields: an empty field.
    pub fn deserialize_unit_struct(&mut self, name: &str) -> (r: Result<(), Error>)
        requires
            old(self).wf(),
        ensures
            final(self).wf(),
            final(self)@.follows(old(self)@),
            *final(final(self).reader()) == *final(old(self).reader()),
            match old(self)@.read().0 {
                Ok(text) => r == unit_field(text),
                Err(e) => r is Err && r->Err_0 == e,
            },
            final(self)@ == old(self)@.read().1,
    {
        self.deserialize_unit()
    }

    /// Reads one field and drops it.
    pub fn deserialize_ignored_any(&mut self) -> (r: Result<(), Error>)
        requires
            old(self).wf(),
        ensures
            final(self).wf(),
            final(self)@.follows(old(self)@),
            *final(final(self).reader()) == *final(old(self).reader()),
            match old(self)@.read().0 {
                Ok(text) => r is Ok,
                Err(e) => r is Err && r->Err_0 == e,
            },
            final(self)@ == old(self)@.read().1,
    {
        match self.read_bytes() {
            Ok(_) => Ok(()),
            Err(e) => Err(e),
        }
    }

    /// Reads the name of a variant and returns its place among `names`.
    #[verifier::loop_isolation(false)]
    pub fn deserialize_enum(&mut self, names: &Vec<String>) -> (r: Result<usize, Error>)
        requires
            old(self).wf(),
        ensures
            final(self).wf(),
            final(self)@.follows(old(self)@),
            *final(final(self).reader()) == *final(old(self).reader()),
            match old(self)@.read().0 {
                Ok(text) => match variant_field(names@, text) {
                    Ok(i) => r is Ok && r->Ok_0 == i && 0 <= i < names@.len(),
                    Err(e) => r is Err && r->Err_0 == e,
                },
                Err(e) => r is Err && r->Err_0 == e,
            },
            final(self)@ == old(self)@.read().1,
    {
        let text = match self.read_bytes() {
            Ok(text) => text,
            Err(e) => {
                return Err(e);
            },
        };
        let mut i: usize = 0;
        while i < names.len()
            invariant
                i <= names.len(),
                variant_index(names@.take(i as int), text@) is None,
            decreases names.len() - i,
        {
            proof {
                assert(names@.take(i + 1).drop_last() == names@.take(i as int));
            }
            if same_bytes(names[i].as_str().as_bytes(), text) {
                proof {
                    lemma_variant_found(names@, text@, i as int);
                }
                return Ok(i);
            }
            i = i + 1;
        }
        proof {
            assert(names@.take(i as int) == names@);
        }
        Err(Error::Custom)
    }

    /// Reads a value of the given shape.
    pub fn deserialize_value(&mut self, shape: &Shape) -> (r: Result<Value, Error>)
        requires
            old(self).wf(),
        ensures
            final(self).wf(),
            final(self)@.follows(old(self)@),
            *final(final(self).reader()) == *final(old(self).reader()),
            agrees(r, decode(*shape, old(self)@).0),
            final(self)@ == decode(*shape, old(self)@).1,
        decreases shape, 0nat, 0nat,
    {
        match shape {
            Shape::Optional(inner) => match self.deserialize_option() {
                Ok(true) => match self.deserialize_value(inner) {
                    Ok(v) => Ok(Value::Present(Box::new(v))),
                    Err(e) => Err(e),
                },
                Ok(false) => Ok(Value::Absent),
                Err(e) => Err(e),
            },
            Shape::Newtype(inner) => match self.deserialize_value(inner) {
                Ok(v) => Ok(Value::Newtype(Box::new(v))),
                Err(e) => Err(e),
            },
            Shape::List(element) => match self.deserialize_seq(element) {
                Ok(items) => Ok(Value::List(items)),
                Err(e) => Err(e),
            },
            Shape::Tuple(shapes) => match self.deserialize_tuple(shapes) {
                Ok(items) => Ok(Value::Tuple(items)),
                Err(e) => Err(e),
            },
            Shape::Struct(shapes) => match self.deserialize_tuple(shapes) {
                Ok(items) => Ok(Value::Struct(items)),
                Err(e) => Err(e),
            },
            _ => self.deserialize_scalar(shape),
        }
    }

    /// Reads a value that takes one field.
    fn deserialize_scalar(&mut self, shape: &Shape) -> (r: Result<Value, Error>)
        requires
            old(self).wf(),
            is_scalar(*shape),
        ensures
            final(self).wf(),
            final(self)@.follows(old(self)@),
            *final(final(self).reader()) == *final(old(self).reader()),
            agrees(r, decode(*shape, old(self)@).0),
            final(self)@ == decode(*shape, old(self)@).1,
    {
        match shape {
            Shape::Bool => match self.deserialize_bool() {
                Ok(v) => Ok(Value::Bool(v)),
                Err(e) => Err(e),
            },
            Shape::I8 => match self.deserialize_i8() {
                Ok(v) => Ok(Value::I8(v)),
                Err(e) => Err(e),
            },
            Shape::I16 => match self.deserialize_i16() {
                Ok(v) => Ok(Value::I16(v)),
                Err(e) => Err(e),
            },
            Shape::I32 => match self.deserialize_i32() {
                Ok(v) => Ok(Value::I32(v)),
                Err(e) => Err(e),
            },
            Shape::I64 => match self.deserialize_i64() {
                Ok(v) => Ok(Value::I64(v)),
                Err(e) => Err(e),
            },
            Shape::U8 => match self.deserialize_u8() {
                Ok(v) => Ok(Value::U8(v)),
                Err(e) => Err(e),
            },
            Shape::U16 => match self.deserialize_u16() {
                Ok(v) => Ok(Value::U16(v)),
                Err(e) => Err(e),
            },
            Shape::U32 => match self.deserialize_u32() {
                Ok(v) => Ok(Value::U32(v)),
                Err(e) => Err(e),
            },
            Shape::U64 => match self.deserialize_u64() {
                Ok(v) => Ok(Value::U64(v)),
                Err(e) => Err(e),
            },
            Shape::Char => match self.deserialize_char() {
                Ok(c) => Ok(Value::Char(c)),
                Err(e) => Err(e),
            },
            Shape::Str => match self.deserialize_str() {
                Ok(s) => Ok(Value::Str(s.to_owned())),
                Err(e) => Err(e),
            },
            Shape::Bytes => match self.deserialize_bytes() {
                Ok(b) => Ok(Value::Bytes(vstd::slice::slice_to_vec(b))),
                Err(e) => Err(e),
            },
            Shape::Unit => match self.deserialize_unit() {
                Ok(()) => Ok(Value::Unit),
                Err(e) => Err(e),
            },
            Shape::UnitStruct(name) => match self.deserialize_unit_struct(name.as_str()) {
                Ok(()) => Ok(Value::UnitStruct(name.clone())),
                Err(e) => Err(e),
            },
            Shape::Variant(names) => match self.deserialize_enum(names) {
                Ok(i) => Ok(Value::UnitVariant(names[i].clone())),
                Err(e) => Err(e),
            },
            Shape::Ignored => match self.deserialize_ignored_any() {
                Ok(()) => Ok(Value::Unit),
                Err(e) => Err(e),
            },
            _ => Err(Error::Custom),
        }
    }

    /// Reads the next element of a composite, if the record has one: once
    /// the last field of the record has been read there is none.
    pub fn next_element(&mut self, shape: &Shape) -> (r: Result<Option<Value>, Error>)
        requires
            old(self).wf(),
        ensures
            final(self).wf(),
            final(self)@.follows(old(self)@),
            *final(final(self).reader()) == *final(old(self).reader()),
            match decode_element(*shape, old(self)@).0 {
                Ok(Some(tree)) => r is Ok && r->Ok_0 is Some && r->Ok_0->Some_0@ == tree,
                Ok(None) => r is Ok && r->Ok_0 is None,
                Err(e) => r is Err && r->Err_0 == e,
            },
            final(self)@ == decode_element(*shape, old(self)@).1,
        decreases shape, 0nat, 1nat,
    {
        if self.record_end {
            Ok(None)
        } else {
            match self.deserialize_value(shape) {
                Ok(v) => Ok(Some(v)),
                Err(e) => Err(e),
            }
        }
    }

    /// Reads the elements of a composite of fixed size. An element that the
    /// record does not have is an error.
    pub fn deserialize_tuple(&mut self, shapes: &Vec<Shape>) -> (r: Result<Vec<Value>, Error>)
        requires
            old(self).wf(),
        ensures
            final(self).wf(),
            final(self)@.follows(old(self)@),
            *final(final(self).reader()) == *final(old(self).reader()),
            agree(r, decode_all(shapes@, old(self)@).0),
            final(self)@ == decode_all(shapes@, old(self)@).1,
        decreases shapes, 0nat, 0nat,
    {
        let ghost start = self@;
        let mut items: Vec<Value> = Vec::new();
        let mut i: usize = 0;
        proof {
            assert(shapes@.take(0) == Seq::<Shape>::empty());
        }
        while i < shapes.len()
            invariant
                i <= shapes.len(),
                self.wf(),
                start == old(self)@,
                self@.follows(start),
                *final(self.reader) == *final(old(self).reader),
                decode_all(shapes@.take(i as int), start) == (
                    Ok::<Seq<Tree>, Error>(Value::trees(items@)),
                    self@,
                ),
            decreases shapes.len() - i,
        {
            proof {
                assert(shapes@.take(i + 1).drop_last() == shapes@.take(i as int));
            }
            let ghost sofar = items@;
            match self.next_element(&shapes[i]) {
                Ok(Some(v)) => {
                    items.push(v);
                    proof {
                        assert(items@.drop_last() == sofar);
                    }
                },
                Ok(None) => {
                    proof {
                        lemma_decode_all_fails(shapes@, start, i + 1);
                    }
                    return Err(Error::Custom);
                },
                Err(e) => {
                    proof {
                        lemma_decode_all_fails(shapes@, start, i + 1);
                    }
                    return Err(e);
                },
            }
            i = i + 1;
        }
        proof {
            assert(shapes@.take(i as int) == shapes@);
        }
        Ok(items)
    }

    /// Reads the elements of a sequence: as many as the record has. The
    /// sequence ends where the record ends. It also ends behind an element
    /// that took nothing, neither input nor a buffered field, since nothing
    /// would ever end it then.
    pub fn deserialize_seq(&mut self, element: &Shape) -> (r: Result<Vec<Value>, Error>)
        requires
            old(self).wf(),
        ensures
            final(self).wf(),
            final(self)@.follows(old(self)@),
            *final(final(self).reader()) == *final(old(self).reader()),
            agree(r, decode_list(*element, old(self)@, Seq::empty()).0),
            final(self)@ == decode_list(*element, old(self)@, Seq::empty()).1,
        decreases element, old(self)@.weight() + 1, 0nat,
    {
        let ghost start = self@;
        let mut items: Vec<Value> = Vec::new();
        loop
            invariant
                self.wf(),
                start == old(self)@,
                self@.follows(start),
                *final(self.reader) == *final(old(self).reader),
                self@.weight() <= start.weight(),
                decode_list(*element, start, Seq::empty()) == decode_list(
                    *element,
                    self@,
                    Value::trees(items@),
                ),
            decreases self@.weight(),
        {
            let before = self.nread;
            let held = self.peeked.is_some();
            let ghost sofar = items@;
            match self.next_element(element) {
                Ok(Some(v)) => {
                    items.push(v);
                    proof {
                        assert(items@.drop_last() == sofar);
                    }
                    let used = self.nread > before || (held && self.peeked.is_none());
                    if !used {
                        return Ok(items);
                    }
                },
                Ok(None) => {
                    return Ok(items);
                },
                Err(e) => {
                    return Err(e);
                },
            }
        }
    }
}

} // verus!