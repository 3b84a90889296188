//! Decoder for a binary data-interchange format in which every item is
//! self-describing: a lead byte selects a major type and carries (or
//! introduces) a 64-bit argument, and composite items nest recursively.
//!
//! The sole entry point is [`decoder::decode`], which turns an untrusted byte
//! slice into a [`CborType`] tree or rejects it with one of the six
//! [`CborError`] kinds.  Every function of the decoder is verified against
//! [`decoder::spec_decode`], a mathematical description of the format.

use vstd::prelude::*;

pub mod decoder;
pub mod laws;
pub mod order;

verus! {

broadcast use vstd::std_specs::vec::axiom_vec_index_decreases, vstd::seq::axiom_seq_index_decreases;

/// A decoded value: one variant per supported major type.
///
/// A `Mapping` holds its pairs sorted by the total order of `order::spec_cmp`
/// over the keys, with no key repeated; `decoder::decode` only ever builds
/// mappings of that shape.
#[derive(Debug, PartialEq, Eq)]
pub enum CborType {
    Integer(u64),
    SignedInteger(i64),
    Bytes(Vec<u8>),
    Array(Vec<CborType>),
    Mapping(Vec<(CborType, CborType)>),
    Tag(u64, Box<CborType>),
    Null,
}

/// The mathematical model of a decoded value, used by every contract.
#[verifier::ext_equal]
pub enum CborValue {
    Integer(u64),
    SignedInteger(i64),
    Bytes(Seq<u8>),
    Array(Seq<CborValue>),
    Mapping(Seq<(CborValue, CborValue)>),
    Tag(u64, Box<CborValue>),
    Null,
}

/// The model that a `CborType` stands for, element by element.
pub open spec fn view_of(v: CborType) -> CborValue
    decreases v,
{
    match v {
        CborType::Integer(n) => CborValue::Integer(n),
        CborType::SignedInteger(n) => CborValue::SignedInteger(n),
        CborType::Bytes(b) => CborValue::Bytes(b@),
        CborType::Array(elems) => CborValue::Array(
            Seq::new(
                elems@.len(),
                |i: int|
                    if 0 <= i < elems@.len() {
                        view_of(elems@[i])
                    } else {
                        CborValue::Null
                    },
            ),
        ),
        CborType::Mapping(entries) => CborValue::Mapping(
            Seq::new(
                entries@.len(),
                |i: int|
                    if 0 <= i < entries@.len() {
                        (view_of(entries@[i].0), view_of(entries@[i].1))
                    } else {
                        (CborValue::Null, CborValue::Null)
                    },
            ),
        ),
        CborType::Tag(t, inner) => CborValue::Tag(t, Box::new(view_of(*inner))),
        CborType::Null => CborValue::Null,
    }
}

/// The models of a sequence of values, element by element.
pub open spec fn seq_view(s: Seq<CborType>) -> Seq<CborValue> {
    Seq::new(s.len(), |i: int| view_of(s[i]))
}

/// The models of a sequence of key/value pairs, element by element.
pub open spec fn entries_view(s: Seq<(CborType, CborType)>) -> Seq<(CborValue, CborValue)> {
    Seq::new(s.len(), |i: int| (view_of(s[i].0), view_of(s[i].1)))
}

/// An array's model is the model of its elements.
pub proof fn lemma_view_of_array(elems: Vec<CborType>)
    ensures
        view_of(CborType::Array(elems)) == CborValue::Array(seq_view(elems@)),
{
    let v = view_of(CborType::Array(elems));
    assert(v is Array);
    assert(v->Array_0 =~= seq_view(elems@));
}

/// A mapping's model is the model of its pairs.
pub proof fn lemma_view_of_mapping(entries: Vec<(CborType, CborType)>)
    ensures
        view_of(CborType::Mapping(entries)) == CborValue::Mapping(entries_view(entries@)),
{
    let v = view_of(CborType::Mapping(entries));
    assert(v is Mapping);
    assert(v->Mapping_0 =~= entries_view(entries@));
}

/// The closed set of failure kinds.  Decoding reports exactly one of these;
/// no other failure is observable.
#[derive(Debug, Clone, Copy, PartialEq, Eq, Structural)]
pub enum CborError {
    /// Fewer bytes remain than an argument, a string body, or a nested item requires.
    TruncatedInput,
    /// A reserved or indefinite-length additional-information value, or nesting
    /// deeper than `decoder::MAX_NESTED_DEPTH`.
    MalformedInput,
    /// A negative-integer argument too large for a signed 64-bit result.
    InputValueOutOfRange,
    /// A declared array or byte-string length above `decoder::MAX_ARRAY_SIZE`.
    InputTooLarge,
    /// A text string, or an unsupported simple value.
    UnsupportedType,
    /// A decoded map holds two pairs with equal keys.
    DuplicateMapKey,
}

} // verus!
