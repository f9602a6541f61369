//! Columnar values, tagged by physical type, and the row buffer they are
//! encoded into.
use vstd::prelude::*;
use crate::fixed::opt_nat;
use vstd::utf8::encode_utf8;
use vstd::arithmetic::power2::{pow2, lemma2_to64, lemma2_to64_rest};

verus! {

/// A column of one primitive numeric kind; each slot may be null.
pub enum PrimitiveArray {
    Int8(Vec<Option<i8>>),
    Int16(Vec<Option<i16>>),
    Int32(Vec<Option<i32>>),
    Int64(Vec<Option<i64>>),
    UInt8(Vec<Option<u8>>),
    UInt16(Vec<Option<u16>>),
    UInt32(Vec<Option<u32>>),
    UInt64(Vec<Option<u64>>),
}

/// Physical types that the list encoding does not handle.
#[derive(Clone, Copy, Debug, PartialEq, Eq)]
pub enum UnsupportedKind {
    FixedSizeBinary,
    Struct,
    Union,
    KeyValueMap,
    Dictionary,
}

/// The one way encoding can fail: a physical type outside the supported set.
#[derive(Clone, Copy, Debug, PartialEq, Eq)]
pub enum EncodeError {
    UnsupportedType(UnsupportedKind),
}

/// An array value tagged with its physical type. List kinds hold one
/// optional child array per slot.
pub enum Array {
    /// An array of the null type, of the given length.
    Null(usize),
    Boolean(Vec<Option<bool>>),
    Primitive(PrimitiveArray),
    Binary(Vec<Option<Vec<u8>>>),
    LargeBinary(Vec<Option<Vec<u8>>>),
    Utf8(Vec<Option<String>>),
    LargeUtf8(Vec<Option<String>>),
    FixedSizeList(Vec<Option<Array>>),
    List(Vec<Option<Array>>),
    LargeList(Vec<Option<Array>>),
    /// An array of a type that the encoding does not handle, of the given length.
    Unsupported(UnsupportedKind, usize),
}

/// Direction of comparison for one column.
#[derive(Clone, Copy, Debug, PartialEq, Eq)]
pub struct SortOptions {
    pub descending: bool,
}

/// A buffer shared by many rows, with one write cursor per row.
/// `offsets[r + 1]` is where row `r` is written next; `offsets[0]` is not used.
pub struct Rows {
    pub buffer: Vec<u8>,
    pub offsets: Vec<usize>,
}

/// Order key of a signed integer of `bits` bits: the value shifted up by
/// half the range, so that unsigned order matches signed order.
pub open spec fn signed_key(x: int, bits: nat) -> nat {
    (x + pow2((bits - 1) as nat)) as nat
}

impl PrimitiveArray {
    pub open spec fn spec_len(&self) -> nat {
        match self {
            PrimitiveArray::Int8(v) => v@.len(),
            PrimitiveArray::Int16(v) => v@.len(),
            PrimitiveArray::Int32(v) => v@.len(),
            PrimitiveArray::Int64(v) => v@.len(),
            PrimitiveArray::UInt8(v) => v@.len(),
            PrimitiveArray::UInt16(v) => v@.len(),
            PrimitiveArray::UInt32(v) => v@.len(),
            PrimitiveArray::UInt64(v) => v@.len(),
        }
    }

    /// Width in bytes of one value.
    pub open spec fn spec_width(&self) -> nat {
        match self {
            PrimitiveArray::Int8(_) | PrimitiveArray::UInt8(_) => 1,
            PrimitiveArray::Int16(_) | PrimitiveArray::UInt16(_) => 2,
            PrimitiveArray::Int32(_) | PrimitiveArray::UInt32(_) => 4,
            PrimitiveArray::Int64(_) | PrimitiveArray::UInt64(_) => 8,
        }
    }

    /// Unsigned order key of each slot.
    pub open spec fn keys(&self) -> Seq<Option<nat>> {
        match self {
            PrimitiveArray::Int8(v) => v@.map_values(
                |o: Option<i8>|
                    match o {
                        Some(x) => Some(signed_key(x as int, 8)),
                        None => None,
                    },
            ),
            PrimitiveArray::Int16(v) => v@.map_values(
                |o: Option<i16>|
                    match o {
                        Some(x) => Some(signed_key(x as int, 16)),
                        None => None,
                    },
            ),
            PrimitiveArray::Int32(v) => v@.map_values(
                |o: Option<i32>|
                    match o {
                        Some(x) => Some(signed_key(x as int, 32)),
                        None => None,
                    },
            ),
            PrimitiveArray::Int64(v) => v@.map_values(
                |o: Option<i64>|
                    match o {
                        Some(x) => Some(signed_key(x as int, 64)),
                        None => None,
                    },
            ),
            PrimitiveArray::UInt8(v) => v@.map_values(
                |o: Option<u8>|
                    match o {
                        Some(x) => Some(x as nat),
                        None => None,
                    },
            ),
            PrimitiveArray::UInt16(v) => v@.map_values(
                |o: Option<u16>|
                    match o {
                        Some(x) => Some(x as nat),
                        None => None,
                    },
            ),
            PrimitiveArray::UInt32(v) => v@.map_values(
                |o: Option<u32>|
                    match o {
                        Some(x) => Some(x as nat),
                        None => None,
                    },
            ),
            PrimitiveArray::UInt64(v) => v@.map_values(
                |o: Option<u64>|
                    match o {
                        Some(x) => Some(x as nat),
                        None => None,
                    },
            ),
        }
    }

    pub fn len(&self) -> (r: usize)
        ensures
            r == self.spec_len(),
    {
        match self {
            PrimitiveArray::Int8(v) => v.len(),
            PrimitiveArray::Int16(v) => v.len(),
            PrimitiveArray::Int32(v) => v.len(),
            PrimitiveArray::Int64(v) => v.len(),
            PrimitiveArray::UInt8(v) => v.len(),
            PrimitiveArray::UInt16(v) => v.len(),
            PrimitiveArray::UInt32(v) => v.len(),
            PrimitiveArray::UInt64(v) => v.len(),
        }
    }

    pub fn width(&self) -> (r: usize)
        ensures
            r == self.spec_width(),
    {
        match self {
            PrimitiveArray::Int8(_) | PrimitiveArray::UInt8(_) => 1,
            PrimitiveArray::Int16(_) | PrimitiveArray::UInt16(_) => 2,
            PrimitiveArray::Int32(_) | PrimitiveArray::UInt32(_) => 4,
            PrimitiveArray::Int64(_) | PrimitiveArray::UInt64(_) => 8,
        }
    }

    /// Order key of slot `i`.
    pub fn key_at(&self, i: usize) -> (r: Option<u64>)
        requires
            i < self.spec_len(),
        ensures
            opt_nat(r) == self.keys()[i as int],
    {
        proof {
            lemma2_to64();
            lemma2_to64_rest();
        }
        match self {
            PrimitiveArray::Int8(v) => match v[i] {
                Some(x) => Some((x as i16 + 128) as u64),
                None => None,
            },
            PrimitiveArray::Int16(v) => match v[i] {
                Some(x) => Some((x as i32 + 32768) as u64),
                None => None,
            },
            PrimitiveArray::Int32(v) => match v[i] {
                Some(x) => Some((x as i64 + 0x8000_0000) as u64),
                None => None,
            },
            PrimitiveArray::Int64(v) => match v[i] {
                Some(x) => Some((x as i128 + 0x8000_0000_0000_0000) as u64),
                None => None,
            },
            PrimitiveArray::UInt8(v) => match v[i] {
                Some(x) => Some(x as u64),
                None => None,
            },
            PrimitiveArray::UInt16(v) => match v[i] {
                Some(x) => Some(x as u64),
                None => None,
            },
            PrimitiveArray::UInt32(v) => match v[i] {
                Some(x) => Some(x as u64),
                None => None,
            },
            PrimitiveArray::UInt64(v) => v[i],
        }
    }
}

/// Order keys of a boolean column: `false` is 0, `true` is 1.
pub open spec fn bool_keys(s: Seq<Option<bool>>) -> Seq<Option<nat>> {
    s.map_values(
        |o: Option<bool>|
            match o {
                Some(b) => Some(if b { 1nat } else { 0nat }),
                None => None,
            },
    )
}

/// The byte strings of a binary column.
pub open spec fn binary_view(s: Seq<Option<Vec<u8>>>) -> Seq<Option<Seq<u8>>> {
    s.map_values(
        |o: Option<Vec<u8>>|
            match o {
                Some(b) => Some(b@),
                None => None,
            },
    )
}

/// The UTF-8 bytes of a text column.
pub open spec fn utf8_view(s: Seq<Option<String>>) -> Seq<Option<Seq<u8>>> {
    s.map_values(
        |o: Option<String>|
            match o {
                Some(t) => Some(encode_utf8(t@)),
                None => None,
            },
    )
}

impl Array {
    /// Number of slots.
    pub open spec fn spec_len(&self) -> nat {
        match self {
            Array::Null(n) => *n as nat,
            Array::Boolean(v) => v@.len(),
            Array::Primitive(p) => p.spec_len(),
            Array::Binary(v) | Array::LargeBinary(v) => v@.len(),
            Array::Utf8(v) | Array::LargeUtf8(v) => v@.len(),
            Array::FixedSizeList(v) | Array::List(v) | Array::LargeList(v) => v@.len(),
            Array::Unsupported(_, n) => *n as nat,
        }
    }

    pub fn len(&self) -> (r: usize)
        ensures
            r == self.spec_len(),
    {
        match self {
            Array::Null(n) => *n,
            Array::Boolean(v) => v.len(),
            Array::Primitive(p) => p.len(),
            Array::Binary(v) | Array::LargeBinary(v) => v.len(),
            Array::Utf8(v) | Array::LargeUtf8(v) => v.len(),
            Array::FixedSizeList(v) | Array::List(v) | Array::LargeList(v) => v.len(),
            Array::Unsupported(_, n) => *n,
        }
    }

    pub fn is_empty(&self) -> (r: bool)
        ensures
            r == (self.spec_len() == 0),
    {
        self.len() == 0
    }
}

} // verus!
