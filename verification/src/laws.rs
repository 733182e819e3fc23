//! What holds of every record, proved from the definitions in [`crate::ser`],
//! [`crate::de`] and [`crate::value`].
//!
//! Written: a record is the fields of the scalar leaves and nothing else
//! ([`lemma_flattening`], [`lemma_same_leaves_same_record`]), with one
//! delimiter between any two and one terminator ([`lemma_record_counts`],
//! [`lemma_record_is_requests`], [`lemma_delimiter_is_written`],
//! [`lemma_terminator_is_written`]). It depends on the length of the buffer
//! and on nothing else that the buffer holds
//! ([`lemma_record_depends_on_length`]).
//!
//! Read: the fields that were written for a value give the value back
//! ([`lemma_fields_read_back`]), and what is decoded from an input is decoded
//! from the part of it that was read ([`lemma_prefix_closure`]). Both speak
//! of the drivers alone. What the tokenizer makes of the bytes that the
//! emitter wrote is the business of `csv_core`, and stands in their
//! hypotheses, which speak of the calls that the decode in question makes.

use vstd::prelude::*;
use vstd::utf8::encode_utf8;
use crate::codec::{
    lemma_bool_text_round_trip, lemma_char_round_trip, lemma_int_text_round_trip,
    lemma_str_round_trip,
};
use crate::de::{
    decode, decode_all, decode_element, decode_list, is_scalar, scalar, variant_index, Error,
    Source,
};
use crate::emitter::{
    closing, delimiter_step, emitter_delimiter, emitter_phase, emitter_quote, emitter_terminator,
    same_dialect, terminator_step, Emitter,
};
use crate::ser::{lemma_failed_absorbs, lemma_leaves_concat, lemma_leaves_one, Sink};
use crate::tokenizer::{read_step, Tokenizer};
use crate::value::{lemma_leaves_of_concat, Shape, Tree};

verus! {

/// One request to the emitter.
pub ghost enum Token {
    /// The bytes of one field.
    Field(Seq<u8>),
    /// The delimiter between two fields.
    Delimiter,
    /// The terminator of the record.
    Terminator,
}

/// The requests that the given leaves make, without the terminator: each
/// leaf as a field, with a delimiter before each but the first.
pub open spec fn leaf_tokens(texts: Seq<Seq<u8>>) -> Seq<Token>
    decreases texts.len(),
{
    if texts.len() == 0 {
        Seq::empty()
    } else if texts.len() == 1 {
        Seq::empty().push(Token::Field(texts[0]))
    } else {
        leaf_tokens(texts.drop_last()).push(Token::Delimiter).push(Token::Field(texts.last()))
    }
}

/// The requests that a record of the given leaves makes.
pub open spec fn record_tokens(texts: Seq<Seq<u8>>) -> Seq<Token> {
    leaf_tokens(texts).push(Token::Terminator)
}

/// The number of delimiters among the requests.
pub open spec fn delimiters(tokens: Seq<Token>) -> nat
    decreases tokens.len(),
{
    if tokens.len() == 0 {
        0
    } else {
        delimiters(tokens.drop_last()) + if tokens.last() is Delimiter {
            1nat
        } else {
            0nat
        }
    }
}

/// The number of terminators among the requests.
pub open spec fn terminators(tokens: Seq<Token>) -> nat
    decreases tokens.len(),
{
    if tokens.len() == 0 {
        0
    } else {
        terminators(tokens.drop_last()) + if tokens.last() is Terminator {
            1nat
        } else {
            0nat
        }
    }
}

/// The number of fields among the requests.
pub open spec fn fields(tokens: Seq<Token>) -> nat
    decreases tokens.len(),
{
    if tokens.len() == 0 {
        0
    } else {
        fields(tokens.drop_last()) + if tokens.last() is Field {
            1nat
        } else {
            0nat
        }
    }
}

/// The sink after one request, made of the emitter as it is.
pub open spec fn request(s: Sink, token: Token) -> Sink {
    match token {
        Token::Field(text) => s.field(text),
        Token::Delimiter => s.delimiter(),
        Token::Terminator => s.terminator(),
    }
}

/// The sink after the requests, first to last.
pub open spec fn requests(s: Sink, tokens: Seq<Token>) -> Sink
    decreases tokens.len(),
{
    if tokens.len() == 0 {
        s
    } else {
        request(requests(s, tokens.drop_last()), tokens.last())
    }
}

/// Two sinks that differ at most in whether a leaf has been written.
pub open spec fn same_output(a: Sink, b: Sink) -> bool {
    &&& a.emitter == b.emitter
    &&& a.buffer == b.buffer
    &&& a.nwritten == b.nwritten
    &&& a.failed == b.failed
}

/// One more request counts where it belongs.
pub proof fn lemma_counts_push(tokens: Seq<Token>, token: Token)
    ensures
        fields(tokens.push(token)) == fields(tokens) + if token is Field {
            1nat
        } else {
            0nat
        },
        delimiters(tokens.push(token)) == delimiters(tokens) + if token is Delimiter {
            1nat
        } else {
            0nat
        },
        terminators(tokens.push(token)) == terminators(tokens) + if token is Terminator {
            1nat
        } else {
            0nat
        },
{
    assert(tokens.push(token).drop_last() == tokens);
}

/// One more request is made of the sink that the others have left.
pub proof fn lemma_requests_push(s: Sink, tokens: Seq<Token>, token: Token)
    ensures
        requests(s, tokens.push(token)) == request(requests(s, tokens), token),
{
    assert(tokens.push(token).drop_last() == tokens);
}

/// The leaves of a record ask for one field each, for a delimiter between
/// any two of them, and for no terminator.
pub proof fn lemma_leaf_counts(texts: Seq<Seq<u8>>)
    ensures
        fields(leaf_tokens(texts)) == texts.len(),
        delimiters(leaf_tokens(texts)) == if texts.len() == 0 {
            0
        } else {
            texts.len() - 1
        },
        terminators(leaf_tokens(texts)) == 0,
    decreases texts.len(),
{
    if texts.len() == 0 {
    } else if texts.len() == 1 {
        lemma_counts_push(Seq::empty(), Token::Field(texts[0]));
    } else {
        let before = leaf_tokens(texts.drop_last());
        lemma_leaf_counts(texts.drop_last());
        lemma_counts_push(before, Token::Delimiter);
        lemma_counts_push(before.push(Token::Delimiter), Token::Field(texts.last()));
    }
}

/// A record of `k` leaves asks the emitter for `k` fields, for `k - 1`
/// delimiters (none when it has no leaf) and for one terminator.
pub proof fn lemma_record_counts(texts: Seq<Seq<u8>>)
    ensures
        fields(record_tokens(texts)) == texts.len(),
        delimiters(record_tokens(texts)) == if texts.len() == 0 {
            0
        } else {
            texts.len() - 1
        },
        terminators(record_tokens(texts)) == 1,
{
    lemma_leaf_counts(texts);
    lemma_counts_push(leaf_tokens(texts), Token::Terminator);
}

/// What a sink does with the leaves of a record is what the emitter does
/// with the requests of [`leaf_tokens`], one after the other.
pub proof fn lemma_leaves_are_requests(s: Sink, texts: Seq<Seq<u8>>)
    requires
        !s.continuing,
    ensures
        same_output(s.leaves(texts), requests(s, leaf_tokens(texts))),
        texts.len() > 0 && !s.failed ==> s.leaves(texts).continuing,
        texts.len() == 0 ==> s.leaves(texts) == s,
    decreases texts.len(),
{
    if texts.len() == 0 {
    } else if texts.len() == 1 {
        assert(texts == seq![texts[0]]);
        lemma_leaves_one(s, texts[0]);
        lemma_requests_push(s, Seq::empty(), Token::Field(texts[0]));
    } else {
        let head = texts.drop_last();
        let last = texts.last();
        lemma_leaves_are_requests(s, head);
        assert(texts == head + seq![last]);
        lemma_leaves_concat(s, head, seq![last]);
        lemma_leaves_one(s.leaves(head), last);
        let before = leaf_tokens(head);
        lemma_requests_push(s, before, Token::Delimiter);
        lemma_requests_push(s, before.push(Token::Delimiter), Token::Field(last));
        if s.failed {
            lemma_failed_absorbs(s, head);
        }
    }
}

/// A record is what the emitter makes of the requests of
/// [`record_tokens`]: with [`lemma_record_counts`], one field for each leaf,
/// one delimiter between any two, and one terminator.
pub proof fn lemma_record_is_requests(emitter: Emitter, buffer: Seq<u8>, texts: Seq<Seq<u8>>)
    ensures
        same_output(
            Sink::fresh(emitter, buffer).record(texts),
            requests(Sink::fresh(emitter, buffer), record_tokens(texts)),
        ),
{
    let s = Sink::fresh(emitter, buffer);
    lemma_leaves_are_requests(s, texts);
    lemma_requests_push(s, leaf_tokens(texts), Token::Terminator);
}

/// A composite is written as the tuple of its scalar leaves is: nesting
/// leaves no trace in a record.
pub proof fn lemma_flattening(tree: Tree)
    ensures
        Tree::Tuple(tree.scalars()).leaves() == tree.leaves(),
    decreases tree,
{
    lemma_scalars(tree);
}

/// The fields of the scalar leaves of a value are the fields of the value.
pub proof fn lemma_scalars(tree: Tree)
    ensures
        Tree::leaves_of(tree.scalars()) == tree.leaves(),
    decreases tree, 1nat,
{
    match tree {
        Tree::Present(inner) => lemma_scalars(*inner),
        Tree::Newtype(inner) => lemma_scalars(*inner),
        Tree::List(items) => lemma_scalars_of(items),
        Tree::Tuple(items) => lemma_scalars_of(items),
        Tree::Struct(items) => lemma_scalars_of(items),
        _ => {
            let one = seq![tree];
            assert(one.drop_last() == Seq::<Tree>::empty());
            assert(Tree::leaves_of(one) == Tree::leaves_of(Seq::<Tree>::empty()) + tree.leaves());
        },
    }
}

/// The fields of the scalar leaves of several values are the fields of
/// those values.
pub proof fn lemma_scalars_of(items: Seq<Tree>)
    ensures
        Tree::leaves_of(Tree::scalars_of(items)) == Tree::leaves_of(items),
    decreases items, 0nat,
{
    if items.len() > 0 {
        lemma_scalars_of(items.drop_last());
        lemma_scalars(items.last());
        lemma_leaves_of_concat(Tree::scalars_of(items.drop_last()), items.last().scalars());
    }
}

/// Whether two sinks have come the same way through buffers of one length:
/// the same emitter, the same count, and the same committed bytes.
pub open spec fn same_run(a: Sink, b: Sink) -> bool {
    &&& a.emitter == b.emitter
    &&& a.nwritten == b.nwritten
    &&& a.continuing == b.continuing
    &&& a.failed == b.failed
    &&& a.buffer.len() == b.buffer.len()
    &&& forall|i: int| 0 <= i < a.nwritten && i < a.buffer.len() ==> a.buffer[i] == b.buffer[i]
}

/// Whether `end` is `s` further on: the buffer is as long, no less is
/// committed, and what lies behind the committed bytes is as it was.
pub open spec fn keeps_rest(s: Sink, end: Sink) -> bool {
    &&& end.buffer.len() == s.buffer.len()
    &&& s.nwritten <= end.nwritten
    &&& forall|i: int| end.nwritten <= i < s.buffer.len() ==> end.buffer[i] == s.buffer[i]
}

/// One leaf is written alike into two buffers of one length, and leaves
/// the rest of each as it was.
pub proof fn lemma_leaf_same_run(a: Sink, b: Sink, text: Seq<u8>)
    requires
        same_run(a, b),
    ensures
        same_run(a.leaf(text), b.leaf(text)),
        same_run(a.terminator(), b.terminator()),
        keeps_rest(a, a.leaf(text)),
        keeps_rest(a, a.terminator()),
{
}

/// A run of leaves is written alike into two buffers of one length, and
/// leaves the rest of each as it was.
pub proof fn lemma_leaves_same_run(a: Sink, b: Sink, texts: Seq<Seq<u8>>)
    requires
        same_run(a, b),
    ensures
        same_run(a.leaves(texts), b.leaves(texts)),
        keeps_rest(a, a.leaves(texts)),
    decreases texts.len(),
{
    if texts.len() > 0 {
        lemma_leaf_same_run(a, b, texts.first());
        lemma_leaves_same_run(a.leaf(texts.first()), b.leaf(texts.first()), texts.drop_first());
    }
}

/// A record depends on the length of the buffer and on nothing else that
/// the buffer holds: into two buffers of one length the same bytes are
/// written, as many of them, with the same outcome. What lies behind them
/// is left as it was.
pub proof fn lemma_record_depends_on_length(
    emitter: Emitter,
    first: Seq<u8>,
    second: Seq<u8>,
    texts: Seq<Seq<u8>>,
)
    requires
        first.len() == second.len(),
    ensures
        same_run(Sink::fresh(emitter, first).record(texts), Sink::fresh(emitter, second).record(texts)),
        keeps_rest(Sink::fresh(emitter, first), Sink::fresh(emitter, first).record(texts)),
        Sink::fresh(emitter, first).record(texts).nwritten <= first.len() ==> Sink::fresh(
            emitter,
            first,
        ).record(texts).written() == Sink::fresh(emitter, second).record(texts).written(),
{
    let a = Sink::fresh(emitter, first);
    let b = Sink::fresh(emitter, second);
    lemma_leaves_same_run(a, b, texts);
    lemma_leaf_same_run(a.leaves(texts), b.leaves(texts), Seq::empty());
    let x = a.record(texts);
    let y = b.record(texts);
    if x.nwritten <= first.len() {
        assert(x.written() =~= y.written());
    }
}

/// Two values with the same scalar leaves make the same record in buffers
/// of one length, whatever the emitter and whatever the buffers hold.
pub proof fn lemma_same_leaves_same_record(
    emitter: Emitter,
    first: Seq<u8>,
    second: Seq<u8>,
    a: Tree,
    b: Tree,
)
    requires
        a.scalars() == b.scalars(),
        first.len() == second.len(),
    ensures
        same_run(
            Sink::fresh(emitter, first).record(a.leaves()),
            Sink::fresh(emitter, second).record(b.leaves()),
        ),
        Sink::fresh(emitter, first).record(a.leaves()).nwritten <= first.len() ==> Sink::fresh(
            emitter,
            first,
        ).record(a.leaves()).written() == Sink::fresh(emitter, second).record(b.leaves()).written(),
{
    lemma_scalars(a);
    lemma_scalars(b);
    lemma_record_depends_on_length(emitter, first, second, a.leaves());
}

/// A struct of a pair, an array of four and a struct of two makes the
/// record of the tuple of the eight, in buffers of one length.
pub proof fn lemma_nested_record_is_flat(
    emitter: Emitter,
    first: Seq<u8>,
    second: Seq<u8>,
    a: (i32, i32),
    b: Seq<i32>,
    c: (i32, i32),
)
    requires
        b.len() == 4,
        first.len() == second.len(),
    ensures
        same_run(
            Sink::fresh(emitter, first).record(
                Tree::Struct(
                    seq![
                        Tree::Tuple(seq![Tree::I32(a.0), Tree::I32(a.1)]),
                        Tree::Tuple(
                            seq![Tree::I32(b[0]), Tree::I32(b[1]), Tree::I32(b[2]), Tree::I32(b[3])],
                        ),
                        Tree::Struct(seq![Tree::I32(c.0), Tree::I32(c.1)]),
                    ],
                ).leaves(),
            ),
            Sink::fresh(emitter, second).record(
                Tree::Tuple(
                    seq![
                        Tree::I32(a.0),
                        Tree::I32(a.1),
                        Tree::I32(b[0]),
                        Tree::I32(b[1]),
                        Tree::I32(b[2]),
                        Tree::I32(b[3]),
                        Tree::I32(c.0),
                        Tree::I32(c.1),
                    ],
                ).leaves(),
            ),
        ),
{
    let one = seq![Tree::I32(a.0), Tree::I32(a.1)];
    let two = seq![Tree::I32(b[0]), Tree::I32(b[1]), Tree::I32(b[2]), Tree::I32(b[3])];
    let three = seq![Tree::I32(c.0), Tree::I32(c.1)];
    let parts = seq![Tree::Tuple(one), Tree::Tuple(two), Tree::Struct(three)];
    let flat = seq![
        Tree::I32(a.0),
        Tree::I32(a.1),
        Tree::I32(b[0]),
        Tree::I32(b[1]),
        Tree::I32(b[2]),
        Tree::I32(b[3]),
        Tree::I32(c.0),
        Tree::I32(c.1),
    ];
    let none = Seq::<Tree>::empty();
    assert(parts == none.push(Tree::Tuple(one)).push(Tree::Tuple(two)).push(Tree::Struct(three)));
    lemma_leaves_of_push(none, Tree::Tuple(one));
    lemma_leaves_of_push(none.push(Tree::Tuple(one)), Tree::Tuple(two));
    lemma_leaves_of_push(none.push(Tree::Tuple(one)).push(Tree::Tuple(two)), Tree::Struct(three));
    assert(flat == one + two + three);
    lemma_leaves_of_concat(one, two);
    lemma_leaves_of_concat(one + two, three);
    lemma_record_depends_on_length(emitter, first, second, Tree::Tuple(flat).leaves());
}

/// Where there is room for it, the delimiter before a leaf is written: the
/// last byte that the request commits is the delimiter of the emitter.
pub proof fn lemma_delimiter_is_written(s: Sink, text: Seq<u8>)
    requires
        s.continuing,
        !s.failed,
        s.nwritten <= s.buffer.len(),
        s.leaf_obeys(text),
        !s.delimiter().failed,
    ensures
        s.nwritten < s.delimiter().nwritten <= s.buffer.len(),
        s.delimiter().buffer[s.delimiter().nwritten - 1] == emitter_delimiter(s.emitter),
{
    let step = delimiter_step(s.emitter, s.room());
    let bytes = closing(s.emitter) + seq![emitter_delimiter(s.emitter)];
    assert(step.bytes == bytes);
    assert(bytes.len() == closing(s.emitter).len() + 1);
    assert(bytes[bytes.len() - 1] == emitter_delimiter(s.emitter));
    let d = s.commit(step);
    assert(d.buffer[d.nwritten - 1] == step.bytes[d.nwritten - 1 - s.nwritten]);
}

/// Where there is room for it, the terminator is written: the last bytes
/// that the request commits are the terminator of the emitter.
pub proof fn lemma_terminator_is_written(s: Sink)
    requires
        !s.failed,
        s.nwritten <= s.buffer.len(),
        s.end_obeys(),
        !s.terminator().failed,
    ensures
        s.nwritten + emitter_terminator(s.emitter).len() <= s.terminator().nwritten
            <= s.buffer.len(),
        forall|i: int|
            0 <= i < emitter_terminator(s.emitter).len() ==> s.terminator().buffer[s.terminator().nwritten
                - emitter_terminator(s.emitter).len() + i] == emitter_terminator(s.emitter)[i],
{
    let step = terminator_step(s.emitter, s.room());
    let term = emitter_terminator(s.emitter);
    let front = (if emitter_phase(s.emitter).record_bytes == 0 {
        seq![emitter_quote(s.emitter), emitter_quote(s.emitter)]
    } else {
        Seq::empty()
    }) + closing(s.emitter);
    assert(step.bytes == front + term);
    assert(step.bytes.len() == front.len() + term.len());
    let d = s.terminator();
    assert forall|i: int| 0 <= i < term.len() implies d.buffer[d.nwritten - term.len() + i]
        == term[i] by {
        assert(d.buffer[d.nwritten - term.len() + i] == step.bytes[front.len() + i]);
    }
}

/// The dialect of the emitter is the same behind every leaf.
pub proof fn lemma_dialect_stays(s: Sink, texts: Seq<Seq<u8>>)
    requires
        s.leaves_obey(texts),
    ensures
        same_dialect(s.emitter, s.leaves(texts).emitter),
    decreases texts.len(),
{
    if texts.len() > 0 {
        lemma_dialect_stays(s.leaf(texts.first()), texts.drop_first());
    }
}

/// The fields of several values and one more.
pub proof fn lemma_leaves_of_push(items: Seq<Tree>, tree: Tree)
    ensures
        Tree::leaves_of(items.push(tree)) == Tree::leaves_of(items) + tree.leaves(),
{
    assert(items.push(tree).drop_last() == items);
}

/// Whether a source serves the given fields, one with each call of the
/// tokenizer, each out of input that it takes, and the last of them as the
/// last of its record and with the last of the input.
pub open spec fn serves(s: Source, fields: Seq<Seq<u8>>) -> bool
    decreases fields.len(),
{
    if fields.len() == 0 {
        true
    } else {
        let (r, next) = s.fetch();
        &&& r == Ok::<Seq<u8>, Error>(fields.first())
        &&& next.record_end == (fields.len() == 1)
        &&& next.unread() < s.unread()
        &&& fields.len() == 1 ==> next.unread() == 0
        &&& serves(next, fields.drop_first())
    }
}

/// The source without its buffered field.
pub open spec fn unpeeked(s: Source) -> Source {
    Source { peeked: None, ..s }
}

/// Whether a source has the given fields to give: the buffered one first,
/// if there is one, and the others as [`serves`] says.
pub open spec fn offers(s: Source, fields: Seq<Seq<u8>>) -> bool {
    match s.peeked {
        Some(text) => {
            &&& fields.len() > 0
            &&& text == fields.first()
            &&& s.record_end == (fields.len() == 1)
            &&& serves(unpeeked(s), fields.drop_first())
        },
        None => serves(s, fields),
    }
}

/// Whether `tree` is a value of the given shape that reads back from its
/// own fields; `last` says that nothing follows it in the record.
///
/// Left out are the values that do not: an optional value whose field is
/// empty, an optional composite that is all there is of the record in one
/// field (the look-ahead ends the record before the composite begins), a
/// composite among the elements of another that has no leaf, and a sequence
/// that is empty or not the last thing in its record.
pub open spec fn reads_back(shape: Shape, tree: Tree, last: bool) -> bool
    decreases shape, 0nat,
{
    match shape {
        Shape::Bool => tree is Bool,
        Shape::I8 => tree is I8,
        Shape::I16 => tree is I16,
        Shape::I32 => tree is I32,
        Shape::I64 => tree is I64,
        Shape::U8 => tree is U8,
        Shape::U16 => tree is U16,
        Shape::U32 => tree is U32,
        Shape::U64 => tree is U64,
        Shape::Char => tree is Char,
        Shape::Str => tree is Str,
        Shape::Bytes => tree is Bytes,
        Shape::Unit => tree is Unit,
        Shape::Ignored => tree is Unit,
        Shape::UnitStruct(name) => tree == Tree::UnitStruct(name@),
        Shape::Variant(names) => {
            &&& tree matches Tree::UnitVariant(name)
            &&& exists|i: int| 0 <= i < names@.len() && (#[trigger] names@[i])@ == name
        },
        Shape::Optional(inner) => {
            ||| tree is Absent
            ||| {
                &&& tree matches Tree::Present(value)
                &&& reads_back(*inner, *value, last)
                &&& value.leaves().len() > 0
                &&& value.leaves()[0].len() > 0
                &&& is_scalar(*inner) || !last || value.leaves().len() > 1
            }
        },
        Shape::Newtype(inner) => {
            &&& tree matches Tree::Newtype(value)
            &&& reads_back(*inner, *value, last)
        },
        Shape::Tuple(shapes) => {
            &&& tree matches Tree::Tuple(items)
            &&& all_read_back(shapes@, items, last)
        },
        Shape::Struct(shapes) => {
            &&& tree matches Tree::Struct(items)
            &&& all_read_back(shapes@, items, last)
        },
        Shape::List(element) => {
            &&& tree matches Tree::List(items)
            &&& last
            &&& list_reads_back(*element, items)
        },
    }
}

/// Whether the elements of a composite of fixed size read back: each of
/// them does, and each of them has a leaf.
pub open spec fn all_read_back(shapes: Seq<Shape>, items: Seq<Tree>, last: bool) -> bool
    decreases shapes, 0nat,
{
    &&& shapes.len() == items.len()
    &&& shapes.len() > 0 ==> {
        &&& all_read_back(shapes.drop_last(), items.drop_last(), false)
        &&& reads_back(shapes.last(), items.last(), last)
        &&& items.last().leaves().len() > 0
    }
}

/// Whether the elements of a sequence read back: there is one at least,
/// each of them reads back, and each of them has a leaf.
pub open spec fn list_reads_back(element: Shape, items: Seq<Tree>) -> bool
    decreases element, items.len() + 1,
{
    &&& items.len() > 0
    &&& reads_back(element, items.first(), items.len() == 1)
    &&& items.first().leaves().len() > 0
    &&& items.len() > 1 ==> list_reads_back(element, items.drop_first())
}

/// A name that is among the names is found, and what is found is that name.
pub proof fn lemma_variant_reads_back(names: Seq<String>, name: Seq<char>)
    requires
        exists|i: int| 0 <= i < names.len() && (#[trigger] names[i])@ == name,
    ensures
        variant_index(names, encode_utf8(name)) matches Some(i) && 0 <= i < names.len()
            && names[i]@ == name,
    decreases names.len(),
{
    broadcast use vstd::utf8::group_utf8_lib;

    let text = encode_utf8(name);
    let rest = names.drop_last();
    if exists|i: int| 0 <= i < rest.len() && (#[trigger] rest[i])@ == name {
        lemma_variant_reads_back(rest, name);
    } else {
        let i = choose|i: int| 0 <= i < names.len() && (#[trigger] names[i])@ == name;
        if i < names.len() - 1 {
            assert(rest[i]@ == name);
        }
        assert(names.last()@ == name);
        lemma_variant_bounds(rest, text);
    }
    lemma_variant_bounds(names, text);
    let found = variant_index(names, text)->Some_0;
    assert(vstd::utf8::decode_utf8(encode_utf8(names[found]@)) == names[found]@);
    assert(vstd::utf8::decode_utf8(encode_utf8(name)) == name);
}

/// What the search for a name finds is a place among the names, and the
/// name at that place is spelled by the text.
pub proof fn lemma_variant_bounds(names: Seq<String>, text: Seq<u8>)
    ensures
        variant_index(names, text) matches Some(i) ==> 0 <= i < names.len() && encode_utf8(
            names[i]@,
        ) == text,
    decreases names.len(),
{
    if names.len() > 0 {
        lemma_variant_bounds(names.drop_last(), text);
    }
}

/// A scalar that reads back has one field, and that field stands for it.
pub proof fn lemma_scalar_reads_back(shape: Shape, tree: Tree, last: bool)
    requires
        is_scalar(shape),
        reads_back(shape, tree, last),
    ensures
        tree.leaves().len() == 1,
        scalar(shape, tree.leaves()[0]) == Ok::<Tree, Error>(tree),
{
    broadcast use vstd::utf8::group_utf8_lib;

    match tree {
        Tree::Bool(v) => lemma_bool_text_round_trip(v),
        Tree::I8(v) => lemma_int_text_round_trip(v as int),
        Tree::I16(v) => lemma_int_text_round_trip(v as int),
        Tree::I32(v) => lemma_int_text_round_trip(v as int),
        Tree::I64(v) => lemma_int_text_round_trip(v as int),
        Tree::U8(v) => lemma_int_text_round_trip(v as int),
        Tree::U16(v) => lemma_int_text_round_trip(v as int),
        Tree::U32(v) => lemma_int_text_round_trip(v as int),
        Tree::U64(v) => lemma_int_text_round_trip(v as int),
        Tree::Char(c) => lemma_char_round_trip(c),
        Tree::Str(text) => lemma_str_round_trip(text),
        Tree::UnitVariant(name) => {
            if let Shape::Variant(names) = shape {
                lemma_variant_reads_back(names@, name);
            }
        },
        _ => {},
    }
}

/// The fields of several values are those of the first, then those of the
/// others.
pub proof fn lemma_leaves_of_first(items: Seq<Tree>)
    requires
        items.len() > 0,
    ensures
        Tree::leaves_of(items) == items.first().leaves() + Tree::leaves_of(items.drop_first()),
{
    let one = seq![items.first()];
    assert(items == one + items.drop_first());
    lemma_leaves_of_concat(one, items.drop_first());
    lemma_leaves_of_push(Seq::empty(), items.first());
    assert(one == Seq::<Tree>::empty().push(items.first()));
}

/// The first of the fields that a source offers is the one that is read,
/// and the one that is looked at.
pub proof fn lemma_first_field(s: Source, fields: Seq<Seq<u8>>)
    requires
        offers(s, fields),
        fields.len() > 0,
        !s.record_end,
    ensures
        s.read().0 == Ok::<Seq<u8>, Error>(fields.first()),
        s.read().1.peeked is None,
        s.read().1.record_end == (fields.len() == 1),
        s.read().1.weight() < s.weight(),
        fields.len() == 1 ==> s.read().1.unread() == 0,
        serves(s.read().1, fields.drop_first()),
        s.peek().0 == Ok::<Seq<u8>, Error>(fields.first()),
        s.peek().1.peeked == Some(fields.first()),
        s.peek().1.record_end == (fields.len() == 1),
        s.peek().1.weight() <= s.weight(),
        unpeeked(s.peek().1) == s.read().1,
{
    if s.peeked is None {
        let next = s.fetch().1;
        assert(unpeeked(Source { peeked: Some(fields.first()), ..next }) == next);
    }
}

/// An optional value that reads back is what is decoded from a source that
/// offers its fields.
pub proof fn lemma_decode_optional_reads_back(
    shape: Shape,
    tree: Tree,
    last: bool,
    s: Source,
    rest: Seq<Seq<u8>>,
)
    requires
        shape is Optional,
        reads_back(shape, tree, last),
        last == (rest.len() == 0),
        tree.leaves().len() > 0,
        !s.record_end,
        offers(s, tree.leaves() + rest),
    ensures
        decode(shape, s).0 == Ok::<Tree, Error>(tree),
        decode(shape, s).1.peeked is None,
        decode(shape, s).1.record_end == last,
        decode(shape, s).1.weight() < s.weight(),
        last ==> decode(shape, s).1.unread() == 0,
        serves(decode(shape, s).1, rest),
    decreases shape, 0nat, 0nat,
{
    let fields = tree.leaves() + rest;
    assert(fields.first() == tree.leaves()[0]);
    if let Shape::Optional(inner) = shape {
        lemma_first_field(s, fields);
        let held = s.peek().1;
        let next = s.read().1;
        if let Tree::Present(value) = tree {
            assert(s.present() == (Ok::<bool, Error>(true), held));
            if is_scalar(*inner) {
                lemma_scalar_reads_back(*inner, *value, last);
                assert(fields.drop_first() == rest);
                assert(held.read() == (Ok::<Seq<u8>, Error>(fields.first()), next));
                assert(decode(*inner, held) == (scalar(*inner, fields.first()), next));
                assert(fields.len() == 1 + rest.len());
                assert(decode(shape, s) == (Ok::<Tree, Error>(tree), next));
            } else {
                assert(fields.len() > 1);
                assert(offers(held, fields));
                lemma_decode_reads_back(*inner, *value, last, held, rest);
                assert(decode(shape, s) == (Ok::<Tree, Error>(tree), decode(*inner, held).1));
            }
        } else {
            assert(tree.leaves() == seq![Seq::<u8>::empty()]);
            assert(fields.drop_first() == rest);
            assert(fields.len() == 1 + rest.len());
            assert(s.present() == (Ok::<bool, Error>(false), next));
            assert(decode(shape, s) == (Ok::<Tree, Error>(tree), next));
        }
    }
}

/// A value that reads back is what is decoded from a source that offers its
/// fields; the source is then at the fields that follow.
pub proof fn lemma_decode_reads_back(
    shape: Shape,
    tree: Tree,
    last: bool,
    s: Source,
    rest: Seq<Seq<u8>>,
)
    requires
        reads_back(shape, tree, last),
        last == (rest.len() == 0),
        tree.leaves().len() > 0,
        !s.record_end,
        offers(s, tree.leaves() + rest),
    ensures
        decode(shape, s).0 == Ok::<Tree, Error>(tree),
        decode(shape, s).1.peeked is None,
        decode(shape, s).1.record_end == last,
        decode(shape, s).1.weight() < s.weight(),
        last ==> decode(shape, s).1.unread() == 0,
        serves(decode(shape, s).1, rest),
    decreases shape, 0nat, 1nat,
{
    let fields = tree.leaves() + rest;
    assert(fields.first() == tree.leaves()[0]);
    match shape {
        Shape::Optional(_) => {
            lemma_decode_optional_reads_back(shape, tree, last, s, rest);
        },
        Shape::Newtype(inner) => {
            if let Tree::Newtype(value) = tree {
                lemma_decode_reads_back(*inner, *value, last, s, rest);
                assert(decode(shape, s) == (Ok::<Tree, Error>(tree), decode(*inner, s).1));
            }
        },
        Shape::List(element) => {
            if let Tree::List(items) = tree {
                assert(rest == Seq::<Seq<u8>>::empty());
                assert(fields == Tree::leaves_of(items));
                lemma_decode_list_reads_back(*element, items, s, Seq::empty());
                assert(Seq::<Tree>::empty() + items == items);
                assert(decode(shape, s) == (
                    Ok::<Tree, Error>(tree),
                    decode_list(*element, s, Seq::empty()).1,
                ));
            }
        },
        Shape::Tuple(shapes) => {
            if let Tree::Tuple(items) = tree {
                lemma_decode_all_reads_back(shapes@, items, last, s, rest);
                assert(decode(shape, s) == (Ok::<Tree, Error>(tree), decode_all(shapes@, s).1));
            }
        },
        Shape::Struct(shapes) => {
            if let Tree::Struct(items) = tree {
                lemma_decode_all_reads_back(shapes@, items, last, s, rest);
                assert(decode(shape, s) == (Ok::<Tree, Error>(tree), decode_all(shapes@, s).1));
            }
        },
        _ => {
            lemma_scalar_reads_back(shape, tree, last);
            lemma_first_field(s, fields);
            assert(fields.drop_first() == rest);
            assert(fields.len() == 1 + rest.len());
            assert(decode(shape, s) == (scalar(shape, fields.first()), s.read().1));
        },
    }
}

/// The elements of a composite of fixed size that read back are what is
/// decoded from a source that offers their fields.
pub proof fn lemma_decode_all_reads_back(
    shapes: Seq<Shape>,
    items: Seq<Tree>,
    last: bool,
    s: Source,
    rest: Seq<Seq<u8>>,
)
    requires
        all_read_back(shapes, items, last),
        last == (rest.len() == 0),
        !s.record_end,
        offers(s, Tree::leaves_of(items) + rest),
    ensures
        decode_all(shapes, s).0 == Ok::<Seq<Tree>, Error>(items),
        shapes.len() == 0 ==> decode_all(shapes, s).1 == s,
        shapes.len() > 0 ==> {
            &&& decode_all(shapes, s).1.peeked is None
            &&& decode_all(shapes, s).1.record_end == last
            &&& decode_all(shapes, s).1.weight() < s.weight()
            &&& last ==> decode_all(shapes, s).1.unread() == 0
            &&& serves(decode_all(shapes, s).1, rest)
            &&& Tree::leaves_of(items).len() > 0
        },
    decreases shapes, 0nat, 0nat,
{
    if shapes.len() == 0 {
        assert(items == Seq::<Tree>::empty());
    } else {
        let before = items.drop_last();
        let behind = items.last().leaves() + rest;
        assert(Tree::leaves_of(items) + rest == Tree::leaves_of(before) + behind);
        lemma_decode_all_reads_back(shapes.drop_last(), before, false, s, behind);
        let middle = decode_all(shapes.drop_last(), s).1;
        if shapes.len() == 1 {
            assert(before == Seq::<Tree>::empty());
            assert(Tree::leaves_of(before) + behind == behind);
        }
        assert(offers(middle, behind));
        lemma_decode_reads_back(shapes.last(), items.last(), last, middle, rest);
        let end = decode(shapes.last(), middle).1;
        assert(decode_element(shapes.last(), middle) == (
            Ok::<Option<Tree>, Error>(Some(items.last())),
            end,
        ));
        assert(before.push(items.last()) == items);
        assert(decode_all(shapes, s) == (Ok::<Seq<Tree>, Error>(items), end));
    }
}

/// The elements of a sequence that read back are what is decoded from a
/// source that offers their fields and nothing more.
pub proof fn lemma_decode_list_reads_back(
    element: Shape,
    items: Seq<Tree>,
    s: Source,
    done: Seq<Tree>,
)
    requires
        list_reads_back(element, items),
        !s.record_end,
        offers(s, Tree::leaves_of(items)),
    ensures
        decode_list(element, s, done).0 == Ok::<Seq<Tree>, Error>(done + items),
        decode_list(element, s, done).1.peeked is None,
        decode_list(element, s, done).1.record_end,
        decode_list(element, s, done).1.weight() < s.weight(),
        decode_list(element, s, done).1.unread() == 0,
        serves(decode_list(element, s, done).1, Seq::empty()),
        Tree::leaves_of(items).len() > 0,
    decreases element, items.len() + 1, 0nat,
{
    let first = items.first();
    let others = items.drop_first();
    let behind = Tree::leaves_of(others);
    lemma_leaves_of_first(items);
    if items.len() == 1 {
        assert(others == Seq::<Tree>::empty());
        assert(behind == Seq::<Seq<u8>>::empty());
    } else {
        assert(list_reads_back(element, others));
        lemma_leaves_of_first(others);
    }
    lemma_decode_reads_back(element, first, items.len() == 1, s, behind);
    let next = decode(element, s).1;
    assert(decode_element(element, s) == (Ok::<Option<Tree>, Error>(Some(first)), next));
    if items.len() == 1 {
        assert(decode_element(element, next) == (Ok::<Option<Tree>, Error>(None), next));
        assert(done.push(first) == done + items);
    } else {
        lemma_decode_list_reads_back(element, others, next, done.push(first));
        assert(done.push(first) + others == done + items);
    }
}

/// A value that reads back is what is decoded from a source that serves the
/// fields that were written for it, and all of the input is read for it.
///
/// That the tokenizer serves what the emitter has written is not claimed
/// here: it is the business of `csv_core`.
pub proof fn lemma_fields_read_back(
    shape: Shape,
    tree: Tree,
    tokenizer: Tokenizer,
    input: Seq<u8>,
    room: nat,
)
    requires
        reads_back(shape, tree, true),
        tree.leaves().len() > 0,
        serves(Source::fresh(tokenizer, input, room), tree.leaves()),
    ensures
        decode(shape, Source::fresh(tokenizer, input, room)).0 == Ok::<Tree, Error>(tree),
        decode(shape, Source::fresh(tokenizer, input, room)).1.unread() == 0,
{
    assert(tree.leaves() + Seq::<Seq<u8>>::empty() == tree.leaves());
    lemma_decode_reads_back(shape, tree, true, Source::fresh(tokenizer, input, room), Seq::empty());
}

/// Whether a tokenizer reads `input` as it reads the prefixes of `input`
/// that hold what it takes: it takes no more than there is, it takes all
/// there is unless a field ends or the room is full, and where a field ends
/// it does the same with any prefix that holds the field.
pub open spec fn reads_alike(t: Tokenizer, input: Seq<u8>, room: nat) -> bool {
    let step = read_step(t, input, room);
    &&& step.nin <= input.len()
    &&& !(step.end is Field) && !(step.end is OutputFull) ==> step.nin == input.len()
    &&& step.end is Field ==> forall|m: int|
        step.nin <= m <= input.len() ==> #[trigger] read_step(t, input.take(m), room) == step
}

/// Whether the call of the tokenizer that a read of `s` makes, if it makes
/// one, reads prefixes alike.
pub open spec fn read_reads_alike(s: Source) -> bool {
    s.peeked is None ==> reads_alike(s.tokenizer, s.rest(), s.room)
}

/// Whether every call of the tokenizer that decoding `shape` from `s`
/// makes reads prefixes alike.
pub open spec fn decode_reads_alike(shape: Shape, s: Source) -> bool
    decreases shape, 0nat, 0nat,
{
    match shape {
        Shape::Optional(inner) => {
            &&& read_reads_alike(s)
            &&& s.present().0 == Ok::<bool, Error>(true) ==> decode_reads_alike(
                *inner,
                s.present().1,
            )
        },
        Shape::Newtype(inner) => decode_reads_alike(*inner, s),
        Shape::List(element) => list_reads_alike(*element, s),
        Shape::Tuple(shapes) => all_read_alike(shapes@, s),
        Shape::Struct(shapes) => all_read_alike(shapes@, s),
        _ => read_reads_alike(s),
    }
}

/// Whether every call of the tokenizer that decoding an element makes
/// reads prefixes alike.
pub open spec fn element_reads_alike(shape: Shape, s: Source) -> bool
    decreases shape, 0nat, 1nat,
{
    !s.record_end ==> decode_reads_alike(shape, s)
}

/// Whether every call of the tokenizer that decoding the elements of a
/// composite makes reads prefixes alike.
pub open spec fn all_read_alike(shapes: Seq<Shape>, s: Source) -> bool
    decreases shapes, 0nat, 0nat,
{
    shapes.len() > 0 ==> {
        &&& all_read_alike(shapes.drop_last(), s)
        &&& decode_all(shapes.drop_last(), s).0 is Ok ==> element_reads_alike(
            shapes.last(),
            decode_all(shapes.drop_last(), s).1,
        )
    }
}

/// Whether every call of the tokenizer that decoding the elements of a
/// sequence makes reads prefixes alike.
pub open spec fn list_reads_alike(element: Shape, s: Source) -> bool
    decreases element, s.weight() + 1, 0nat,
{
    let (r, next) = decode_element(element, s);
    &&& element_reads_alike(element, s)
    &&& (r is Ok && r->Ok_0 is Some && next.weight() < s.weight()) ==> list_reads_alike(
        element,
        next,
    )
}

/// The source with its input cut behind the first `n` bytes.
pub open spec fn cut(s: Source, n: nat) -> Source {
    Source { input: s.input.take(n as int), ..s }
}

/// Whether `end` is a later state of `s` on the same input: nothing is
/// unread again, and what is read stays within the input.
pub open spec fn advances(s: Source, end: Source) -> bool {
    &&& end.input == s.input
    &&& end.room == s.room
    &&& s.nread <= end.nread
    &&& s.nread <= s.input.len() ==> end.nread <= s.input.len()
}

/// A read leaves the source on the same input, further on.
pub proof fn lemma_read_advances(s: Source)
    requires
        read_reads_alike(s),
    ensures
        advances(s, s.peek().1),
        advances(s, s.read().1),
        advances(s, s.present().1),
{
}

/// Decoding leaves the source on the same input, further on.
pub proof fn lemma_decode_advances(shape: Shape, s: Source)
    requires
        decode_reads_alike(shape, s),
    ensures
        advances(s, decode(shape, s).1),
    decreases shape, 0nat, 0nat,
{
    match shape {
        Shape::Optional(inner) => {
            lemma_read_advances(s);
            if s.present().0 == Ok::<bool, Error>(true) {
                lemma_decode_advances(*inner, s.present().1);
            }
        },
        Shape::Newtype(inner) => {
            lemma_decode_advances(*inner, s);
        },
        Shape::List(element) => {
            lemma_decode_list_advances(*element, s, Seq::empty());
        },
        Shape::Tuple(shapes) => {
            lemma_decode_all_advances(shapes@, s);
        },
        Shape::Struct(shapes) => {
            lemma_decode_all_advances(shapes@, s);
        },
        _ => {
            lemma_read_advances(s);
        },
    }
}

/// Decoding an element leaves the source on the same input, further on.
pub proof fn lemma_decode_element_advances(shape: Shape, s: Source)
    requires
        element_reads_alike(shape, s),
    ensures
        advances(s, decode_element(shape, s).1),
    decreases shape, 0nat, 1nat,
{
    if !s.record_end {
        lemma_decode_advances(shape, s);
    }
}

/// Decoding the elements of a composite leaves the source on the same
/// input, further on.
pub proof fn lemma_decode_all_advances(shapes: Seq<Shape>, s: Source)
    requires
        all_read_alike(shapes, s),
    ensures
        advances(s, decode_all(shapes, s).1),
    decreases shapes, 0nat, 0nat,
{
    if shapes.len() > 0 {
        lemma_decode_all_advances(shapes.drop_last(), s);
        let (r, middle) = decode_all(shapes.drop_last(), s);
        if r is Ok {
            lemma_decode_element_advances(shapes.last(), middle);
        }
    }
}

/// Decoding the elements of a sequence leaves the source on the same input,
/// further on.
pub proof fn lemma_decode_list_advances(element: Shape, s: Source, items: Seq<Tree>)
    requires
        list_reads_alike(element, s),
    ensures
        advances(s, decode_list(element, s, items).1),
    decreases element, s.weight() + 1, 0nat,
{
    lemma_decode_element_advances(element, s);
    let (r, next) = decode_element(element, s);
    if let Ok(Some(tree)) = r {
        if next.weight() < s.weight() {
            lemma_decode_list_advances(element, next, items.push(tree));
        }
    }
}

/// A field that is read from the whole input is read alike from a prefix
/// that holds it.
pub proof fn lemma_fetch_cut(s: Source, n: nat)
    requires
        reads_alike(s.tokenizer, s.rest(), s.room),
        s.nread <= s.input.len(),
        s.fetch().0 is Ok,
        s.fetch().1.nread <= n <= s.input.len(),
    ensures
        cut(s, n).fetch() == (s.fetch().0, cut(s.fetch().1, n)),
{
    let rest = s.rest();
    let step = read_step(s.tokenizer, rest, s.room);
    assert(cut(s, n).rest() == rest.take(n - s.nread));
    if step.end is Field {
        assert(read_step(s.tokenizer, rest.take(n - s.nread), s.room) == step);
    } else {
        assert(rest.take(n - s.nread) == rest);
        assert(s.input.take(n as int) == s.input);
    }
}

/// Looking at a field and reading one go alike on a prefix that holds the
/// field.
pub proof fn lemma_read_cut(s: Source, n: nat)
    requires
        read_reads_alike(s),
        s.nread <= s.input.len(),
        n <= s.input.len(),
    ensures
        s.read().0 is Ok && s.read().1.nread <= n ==> cut(s, n).read() == (
            s.read().0,
            cut(s.read().1, n),
        ),
        s.peek().0 is Ok && s.peek().1.nread <= n ==> cut(s, n).peek() == (
            s.peek().0,
            cut(s.peek().1, n),
        ),
        s.present().0 is Ok && s.present().1.nread <= n ==> cut(s, n).present() == (
            s.present().0,
            cut(s.present().1, n),
        ),
{
    if s.peeked is None && s.fetch().0 is Ok && s.fetch().1.nread <= n {
        lemma_fetch_cut(s, n);
    }
}

/// A value that is decoded from the whole input is decoded alike from a
/// prefix that holds what was read, and the calls made on the prefix read
/// prefixes alike as well.
pub proof fn lemma_decode_cut(shape: Shape, s: Source, n: nat)
    requires
        decode_reads_alike(shape, s),
        s.nread <= s.input.len(),
        decode(shape, s).0 is Ok,
        decode(shape, s).1.nread <= n <= s.input.len(),
    ensures
        decode(shape, cut(s, n)) == (decode(shape, s).0, cut(decode(shape, s).1, n)),
    decreases shape, 0nat, 0nat,
{
    match shape {
        Shape::Optional(inner) => {
            lemma_read_advances(s);
            let (r, next) = s.present();
            if r == Ok::<bool, Error>(true) {
                lemma_decode_advances(*inner, next);
                lemma_read_cut(s, n);
                lemma_decode_cut(*inner, next, n);
            } else {
                lemma_read_cut(s, n);
            }
        },
        Shape::Newtype(inner) => {
            lemma_decode_cut(*inner, s, n);
        },
        Shape::List(element) => {
            lemma_decode_list_cut(*element, s, Seq::empty(), n);
        },
        Shape::Tuple(shapes) => {
            lemma_decode_all_cut(shapes@, s, n);
        },
        Shape::Struct(shapes) => {
            lemma_decode_all_cut(shapes@, s, n);
        },
        _ => {
            lemma_read_advances(s);
            lemma_read_cut(s, n);
        },
    }
}

/// An element that is decoded from the whole input is decoded alike from a
/// prefix that holds what was read.
pub proof fn lemma_decode_element_cut(shape: Shape, s: Source, n: nat)
    requires
        element_reads_alike(shape, s),
        s.nread <= s.input.len(),
        decode_element(shape, s).0 is Ok,
        decode_element(shape, s).1.nread <= n <= s.input.len(),
    ensures
        decode_element(shape, cut(s, n)) == (
            decode_element(shape, s).0,
            cut(decode_element(shape, s).1, n),
        ),
    decreases shape, 0nat, 1nat,
{
    if !s.record_end {
        lemma_decode_cut(shape, s, n);
    }
}

/// The elements of a composite that are decoded from the whole input are
/// decoded alike from a prefix that holds what was read.
pub proof fn lemma_decode_all_cut(shapes: Seq<Shape>, s: Source, n: nat)
    requires
        all_read_alike(shapes, s),
        s.nread <= s.input.len(),
        decode_all(shapes, s).0 is Ok,
        decode_all(shapes, s).1.nread <= n <= s.input.len(),
    ensures
        decode_all(shapes, cut(s, n)) == (decode_all(shapes, s).0, cut(decode_all(shapes, s).1, n)),
    decreases shapes, 0nat, 0nat,
{
    if shapes.len() > 0 {
        let middle = decode_all(shapes.drop_last(), s).1;
        lemma_decode_all_advances(shapes.drop_last(), s);
        lemma_decode_element_advances(shapes.last(), middle);
        lemma_decode_all_cut(shapes.drop_last(), s, n);
        lemma_decode_element_cut(shapes.last(), middle, n);
    }
}

/// The elements of a sequence that are decoded from the whole input are
/// decoded alike from a prefix that holds what was read.
pub proof fn lemma_decode_list_cut(element: Shape, s: Source, items: Seq<Tree>, n: nat)
    requires
        list_reads_alike(element, s),
        s.nread <= s.input.len(),
        decode_list(element, s, items).0 is Ok,
        decode_list(element, s, items).1.nread <= n <= s.input.len(),
    ensures
        decode_list(element, cut(s, n), items) == (
            decode_list(element, s, items).0,
            cut(decode_list(element, s, items).1, n),
        ),
    decreases element, s.weight() + 1, 0nat,
{
    let (r, next) = decode_element(element, s);
    lemma_decode_element_advances(element, s);
    if let Ok(Some(tree)) = r {
        if next.weight() < s.weight() {
            lemma_decode_list_advances(element, next, items.push(tree));
            lemma_decode_element_cut(element, s, n);
            lemma_decode_list_cut(element, next, items.push(tree), n);
            assert(cut(next, n).weight() < cut(s, n).weight());
        } else {
            lemma_decode_element_cut(element, s, n);
            assert(!(cut(next, n).weight() < cut(s, n).weight()));
        }
    } else {
        lemma_decode_element_cut(element, s, n);
    }
}

/// If the calls of the tokenizer that a decode makes read prefixes alike,
/// then so does the decode: what is decoded from an input is decoded from
/// the bytes that were read of it, and as many are read.
///
/// That those calls read prefixes alike is not claimed here: it is the
/// business of `csv_core`.
pub proof fn lemma_prefix_closure(shape: Shape, tokenizer: Tokenizer, input: Seq<u8>, room: nat)
    requires
        decode_reads_alike(shape, Source::fresh(tokenizer, input, room)),
        decode(shape, Source::fresh(tokenizer, input, room)).0 is Ok,
    ensures
        ({
            let (value, end) = decode(shape, Source::fresh(tokenizer, input, room));
            let again = decode(shape, Source::fresh(tokenizer, input.take(end.nread as int), room));
            &&& end.nread <= input.len()
            &&& again.0 == value
            &&& again.1.nread == end.nread
        }),
{
    let s = Source::fresh(tokenizer, input, room);
    lemma_decode_advances(shape, s);
    let n = decode(shape, s).1.nread;
    lemma_decode_cut(shape, s, n);
    assert(cut(s, n) == Source::fresh(tokenizer, input.take(n as int), room));
}

} // verus!
