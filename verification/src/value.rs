//! Described values: what is written to a record and what is read from one.

use vstd::prelude::*;
use vstd::utf8::encode_utf8;
use crate::codec::{bool_text, int_text};

verus! {

/// A value together with its description: scalar leaves, and composites
/// that hold further values.
///
/// There is no leaf for a floating-point number: whoever holds one writes
/// its text with [`Serializer::serialize_str`](crate::ser::Serializer::serialize_str)
/// and reads it from [`Deserializer::read_bytes`](crate::de::Deserializer::read_bytes).
/// Neither is there a variant that carries data, nor a map: a flat record
/// cannot hold them.
#[derive(Debug, PartialEq, Eq)]
pub enum Value {
    /// A boolean.
    Bool(bool),
    /// A signed 8-bit integer.
    I8(i8),
    /// A signed 16-bit integer.
    I16(i16),
    /// A signed 32-bit integer.
    I32(i32),
    /// A signed 64-bit integer.
    I64(i64),
    /// An unsigned 8-bit integer.
    U8(u8),
    /// An unsigned 16-bit integer.
    U16(u16),
    /// An unsigned 32-bit integer.
    U32(u32),
    /// An unsigned 64-bit integer.
    U64(u64),
    /// A single code point.
    Char(char),
    /// A string.
    Str(String),
    /// A byte slice.
    Bytes(Vec<u8>),
    /// An optional value that is not there.
    Absent,
    /// An optional value that is there.
    Present(Box<Value>),
    /// The unit value.
    Unit,
    /// A struct without fields, with its name. The name is not written: the
    /// struct takes an empty field, as the unit value does.
    UnitStruct(String),
    /// A variant without data, with its name.
    UnitVariant(String),
    /// A wrapper around one value.
    Newtype(Box<Value>),
    /// A sequence of any length.
    List(Vec<Value>),
    /// A tuple, a tuple struct or an array.
    Tuple(Vec<Value>),
    /// A struct, as the values of its fields in order.
    Struct(Vec<Value>),
}

/// The description of a value that is to be read: which leaves it has and
/// how they are put together.
#[derive(Debug, PartialEq, Eq)]
pub enum Shape {
    /// A boolean.
    Bool,
    /// A signed 8-bit integer.
    I8,
    /// A signed 16-bit integer.
    I16,
    /// A signed 32-bit integer.
    I32,
    /// A signed 64-bit integer.
    I64,
    /// An unsigned 8-bit integer.
    U8,
    /// An unsigned 16-bit integer.
    U16,
    /// An unsigned 32-bit integer.
    U32,
    /// An unsigned 64-bit integer.
    U64,
    /// A single code point.
    Char,
    /// A string.
    Str,
    /// A byte slice.
    Bytes,
    /// An optional value of the given shape.
    Optional(Box<Shape>),
    /// The unit value.
    Unit,
    /// A struct without fields, with its name.
    UnitStruct(String),
    /// One of several variants without data, by their names.
    Variant(Vec<String>),
    /// A wrapper around one value of the given shape.
    Newtype(Box<Shape>),
    /// A sequence of any length, of elements of the given shape.
    List(Box<Shape>),
    /// A tuple, a tuple struct or an array, by the shapes of its elements.
    Tuple(Vec<Shape>),
    /// A struct, by the shapes of its fields in order.
    Struct(Vec<Shape>),
    /// One field, whatever it holds.
    Ignored,
}

/// The mathematical content of a [`Value`].
pub ghost enum Tree {
    Bool(bool),
    I8(i8),
    I16(i16),
    I32(i32),
    I64(i64),
    U8(u8),
    U16(u16),
    U32(u32),
    U64(u64),
    Char(char),
    Str(Seq<char>),
    Bytes(Seq<u8>),
    Absent,
    Present(Box<Tree>),
    Unit,
    UnitStruct(Seq<char>),
    UnitVariant(Seq<char>),
    Newtype(Box<Tree>),
    List(Seq<Tree>),
    Tuple(Seq<Tree>),
    Struct(Seq<Tree>),
}

impl Value {
    /// The mathematical content of this value.
    pub open spec fn tree(&self) -> Tree
        decreases self,
    {
        match self {
            Value::Bool(v) => Tree::Bool(*v),
            Value::I8(v) => Tree::I8(*v),
            Value::I16(v) => Tree::I16(*v),
            Value::I32(v) => Tree::I32(*v),
            Value::I64(v) => Tree::I64(*v),
            Value::U8(v) => Tree::U8(*v),
            Value::U16(v) => Tree::U16(*v),
            Value::U32(v) => Tree::U32(*v),
            Value::U64(v) => Tree::U64(*v),
            Value::Char(c) => Tree::Char(*c),
            Value::Str(s) => Tree::Str(s@),
            Value::Bytes(b) => Tree::Bytes(b@),
            Value::Absent => Tree::Absent,
            Value::Present(inner) => Tree::Present(Box::new(inner.tree())),
            Value::Unit => Tree::Unit,
            Value::UnitStruct(name) => Tree::UnitStruct(name@),
            Value::UnitVariant(name) => Tree::UnitVariant(name@),
            Value::Newtype(inner) => Tree::Newtype(Box::new(inner.tree())),
            Value::List(items) => Tree::List(Value::trees(items@)),
            Value::Tuple(items) => Tree::Tuple(Value::trees(items@)),
            Value::Struct(items) => Tree::Struct(Value::trees(items@)),
        }
    }

    /// The mathematical content of several values.
    pub open spec fn trees(items: Seq<Value>) -> Seq<Tree>
        decreases items,
    {
        if items.len() == 0 {
            Seq::empty()
        } else {
            Value::trees(items.drop_last()).push(items.last().tree())
        }
    }
}

impl View for Value {
    type V = Tree;

    open spec fn view(&self) -> Tree {
        self.tree()
    }
}

impl Tree {
    /// The fields that this value takes in a record: the bytes of its scalar
    /// leaves, in order. A composite has no bytes of its own.
    pub open spec fn leaves(self) -> Seq<Seq<u8>>
        decreases self,
    {
        match self {
            Tree::Bool(v) => seq![bool_text(v)],
            Tree::I8(v) => seq![int_text(v as int)],
            Tree::I16(v) => seq![int_text(v as int)],
            Tree::I32(v) => seq![int_text(v as int)],
            Tree::I64(v) => seq![int_text(v as int)],
            Tree::U8(v) => seq![int_text(v as int)],
            Tree::U16(v) => seq![int_text(v as int)],
            Tree::U32(v) => seq![int_text(v as int)],
            Tree::U64(v) => seq![int_text(v as int)],
            Tree::Char(c) => seq![encode_utf8(seq![c])],
            Tree::Str(s) => seq![encode_utf8(s)],
            Tree::Bytes(b) => seq![b],
            Tree::Absent => seq![Seq::empty()],
            Tree::Present(inner) => inner.leaves(),
            Tree::Unit => seq![Seq::empty()],
            Tree::UnitStruct(_) => seq![Seq::empty()],
            Tree::UnitVariant(name) => seq![encode_utf8(name)],
            Tree::Newtype(inner) => inner.leaves(),
            Tree::List(items) => Tree::leaves_of(items),
            Tree::Tuple(items) => Tree::leaves_of(items),
            Tree::Struct(items) => Tree::leaves_of(items),
        }
    }

    /// The scalar leaves of this value, in order.
    pub open spec fn scalars(self) -> Seq<Tree>
        decreases self,
    {
        match self {
            Tree::Present(inner) => inner.scalars(),
            Tree::Newtype(inner) => inner.scalars(),
            Tree::List(items) => Tree::scalars_of(items),
            Tree::Tuple(items) => Tree::scalars_of(items),
            Tree::Struct(items) => Tree::scalars_of(items),
            _ => seq![self],
        }
    }

    /// The scalar leaves of several values, one after the other.
    pub open spec fn scalars_of(items: Seq<Tree>) -> Seq<Tree>
        decreases items,
    {
        if items.len() == 0 {
            Seq::empty()
        } else {
            Tree::scalars_of(items.drop_last()) + items.last().scalars()
        }
    }

    /// The fields of several values, one after the other.
    pub open spec fn leaves_of(items: Seq<Tree>) -> Seq<Seq<u8>>
        decreases items,
    {
        if items.len() == 0 {
            Seq::empty()
        } else {
            Tree::leaves_of(items.drop_last()) + items.last().leaves()
        }
    }
}

/// The content of several values is the content of each, in order.
pub proof fn lemma_trees(items: Seq<Value>)
    ensures
        Value::trees(items).len() == items.len(),
        forall|i: int| 0 <= i < items.len() ==> (#[trigger] Value::trees(items)[i]) == items[i].tree(),
    decreases items.len(),
{
    if items.len() > 0 {
        lemma_trees(items.drop_last());
    }
}

/// The fields of several values, split at any place.
pub proof fn lemma_leaves_of_concat(a: Seq<Tree>, b: Seq<Tree>)
    ensures
        Tree::leaves_of(a + b) == Tree::leaves_of(a) + Tree::leaves_of(b),
    decreases b.len(),
{
    if b.len() == 0 {
        assert(a + b == a);
        assert(Tree::leaves_of(a) + Tree::leaves_of(b) == Tree::leaves_of(a));
    } else {
        lemma_leaves_of_concat(a, b.drop_last());
        assert((a + b).drop_last() == a + b.drop_last());
        assert((a + b).last() == b.last());
        assert(Tree::leaves_of(a) + Tree::leaves_of(b.drop_last()) + b.last().leaves()
            == Tree::leaves_of(a) + (Tree::leaves_of(b.drop_last()) + b.last().leaves()));
    }
}

/// The fields of the first `n + 1` values are those of the first `n`, then
/// those of the next.
pub proof fn lemma_leaves_of_step(items: Seq<Tree>, n: int)
    requires
        0 <= n < items.len(),
    ensures
        Tree::leaves_of(items.take(n + 1)) == Tree::leaves_of(items.take(n)) + items[n].leaves(),
{
    assert(items.take(n + 1).drop_last() == items.take(n));
}

} // verus!
