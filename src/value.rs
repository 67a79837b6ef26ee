use vstd::prelude::*;

verus! {

/// A decoded bencode value.
///
/// Dictionary entries keep the order in which their keys were met, and no
/// key occurs twice.
#[derive(Debug, PartialEq, Eq)]
pub enum Value {
    Integer(i64),
    ByteString(Vec<u8>),
    List(Vec<Value>),
    Dictionary(Vec<(Vec<u8>, Value)>),
}

/// The mathematical form of a `Value`.
pub enum Bencode {
    Int(int),
    Bytes(Seq<u8>),
    List(Seq<Bencode>),
    Dict(Seq<(Seq<u8>, Bencode)>),
}

/// Why decoding, or reading a metainfo dictionary, failed.
#[derive(Debug, Clone, Copy, PartialEq, Eq, Structural)]
pub enum DecodeError {
    /// The leading byte starts no value, or input ended where a value was due.
    UnrecognizedValue,
    /// An integer has no terminating `e`, or its text is not an `i64`.
    MalformedInteger,
    /// A byte string declares more bytes than remain.
    TruncatedString,
    /// A dictionary key is not a byte string.
    NonStringKey,
    /// Lists and dictionaries nest deeper than the allowed depth.
    NestingTooDeep,
    /// A required metainfo field is absent.
    MissingField,
    /// A metainfo field holds a value of the wrong kind or range.
    InvalidField,
    /// The `name` field is not valid UTF-8.
    InvalidName,
    /// The `announce` field is not valid text or not a URL.
    InvalidAnnounceUrl,
    /// The `pieces` blob's length is not a multiple of the hash size.
    HashBlobMisaligned,
    /// Both or neither of `length` and `files` are present.
    AmbiguousLayout,
}

impl Value {
    /// The model of a value, element by element.
    pub open spec fn model(&self) -> Bencode
        decreases self,
    {
        match self {
            Value::Integer(n) => Bencode::Int(*n as int),
            Value::ByteString(b) => Bencode::Bytes(b@),
            Value::List(items) => Bencode::List(
                Seq::new(
                    items.len() as nat,
                    |i: int|
                        if 0 <= i < items.len() {
                            items[i].model()
                        } else {
                            Bencode::Int(0)
                        },
                ),
            ),
            Value::Dictionary(entries) => Bencode::Dict(
                Seq::new(
                    entries.len() as nat,
                    |i: int|
                        if 0 <= i < entries.len() {
                            (entries[i].0@, entries[i].1.model())
                        } else {
                            (Seq::empty(), Bencode::Int(0))
                        },
                ),
            ),
        }
    }
}

} // verus!
