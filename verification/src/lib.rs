//! CSV records to and from described values, without a heap in the drivers.
//!
//! A [`Writer`] turns one described value into one CSV record; a
//! [`Reader`] turns one record back into a value of a given shape. Composite
//! values have no structure on the wire: their scalar leaves follow each
//! other as the fields of a single record.
//!
//! - [`value`]: the values and shapes that are written and read.
//! - [`codec`]: the bytes that stand for a scalar in a field.
//! - [`ser`]: the writer and the serializer that drives the emitter.
//! - [`de`]: the reader and the deserializer that drives the tokenizer.
//! - [`emitter`], [`tokenizer`]: `csv_core`, as far as the drivers rely on it.
//! - [`laws`]: what holds of every record.

pub mod codec;
pub mod de;
pub mod emitter;
pub mod laws;
pub mod ser;
pub mod tokenizer;
pub mod value;

pub use de::Reader;
pub use ser::Writer;
