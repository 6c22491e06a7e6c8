//! Handles, kinds and the values of the graph.
use crate::arena::{align_up, aligned};
use crate::words::words_of;
use vstd::prelude::*;
use vstd::utf8::encode_utf8;

verus! {

pub const KIND_OBJECT: u8 = 1;

pub const KIND_ARRAY: u8 = 2;

pub const KIND_MAP: u8 = 3;

pub const KIND_NULL: u8 = 4;

pub const KIND_BOOL: u8 = 5;

pub const KIND_INT: u8 = 6;

pub const KIND_F64: u8 = 7;

pub const KIND_BIGINT: u8 = 8;

pub const KIND_STR: u8 = 9;

/// The handle of nothing.
pub const H_INVALID: u64 = 0;

/// Offsets below this bound fit into a handle beside the kind.
pub const OFFSET_LIMIT: u64 = 0x0100_0000_0000_0000;

/// The handle of the node of kind `kind` at offset `off`.
pub open spec fn handle(kind: u8, off: u64) -> u64 {
    ((kind as u64) << 56) | off
}

/// The kind that a handle names.
pub open spec fn kind_of(h: u64) -> u8 {
    (h / 0x0100_0000_0000_0000) as u8
}

/// The offset that a handle names.
pub open spec fn off_of(h: u64) -> u64 {
    (h % 0x0100_0000_0000_0000) as u64
}

pub open spec fn container_kind(kind: u8) -> bool {
    kind == KIND_OBJECT || kind == KIND_ARRAY || kind == KIND_MAP
}

/// A handle gives back the kind and the offset that it was made of.
pub proof fn lemma_handle(kind: u8, off: u64)
    requires
        off < OFFSET_LIMIT,
    ensures
        handle(kind, off) == kind * 0x0100_0000_0000_0000 + off,
        kind_of(handle(kind, off)) == kind,
        off_of(handle(kind, off)) == off,
        kind != 0 ==> handle(kind, off) != H_INVALID,
{
    let k = kind as u64;
    assert((k << 56) | off == k * 0x0100_0000_0000_0000 + off) by (bit_vector)
        requires
            k < 256,
            off < 0x0100_0000_0000_0000,
    ;
}

/// A handle is made of its kind and its offset.
pub proof fn law_handle_parts(h: u64)
    ensures
        handle(kind_of(h), off_of(h)) == h,
        off_of(h) < OFFSET_LIMIT,
{
    lemma_handle(kind_of(h), off_of(h));
}

/// Makes the handle of the node of kind `kind` at offset `off`.
pub fn make_handle(kind: u8, off: u64) -> (h: u64)
    ensures
        h == handle(kind, off),
{
    ((kind as u64) << 56) | off
}

/// The kind that `h` names.
pub fn hkind(h: u64) -> (kind: u8)
    ensures
        kind == kind_of(h),
{
    assert(h >> 56 == h / 0x0100_0000_0000_0000) by (bit_vector);
    (h >> 56) as u8
}

/// The offset that `h` names.
pub fn hoff(h: u64) -> (off: u64)
    ensures
        off == off_of(h),
        off < OFFSET_LIMIT,
{
    assert(h & 0x00FF_FFFF_FFFF_FFFF == h % 0x0100_0000_0000_0000) by (bit_vector);
    h & 0x00FF_FFFF_FFFF_FFFF
}

/// Whether `h` names an object, an array or a map.
pub fn is_container(h: u64) -> (r: bool)
    ensures
        r == container_kind(kind_of(h)),
{
    let k: u8 = hkind(h);
    k == KIND_OBJECT || k == KIND_ARRAY || k == KIND_MAP
}

/// Whether `h` names something that is not a container.
pub fn is_scalar(h: u64) -> (r: bool)
    ensures
        r == (!container_kind(kind_of(h)) && h != H_INVALID),
{
    !is_container(h) && h != H_INVALID
}

/// A value of the graph. Containers stand for themselves, by handle; a floating
/// point number is given by its bits.
pub ghost enum Value {
    Object(u64),
    Array(u64),
    Mapping(u64),
    Null,
    Bool(bool),
    Int(i64),
    Float(u64),
    BigInt(i128),
    Str(Seq<char>),
}

impl Value {
    /// The kind of node that holds the value.
    pub open spec fn kind(self) -> u8 {
        match self {
            Value::Object(_) => KIND_OBJECT,
            Value::Array(_) => KIND_ARRAY,
            Value::Mapping(_) => KIND_MAP,
            Value::Null => KIND_NULL,
            Value::Bool(_) => KIND_BOOL,
            Value::Int(_) => KIND_INT,
            Value::Float(_) => KIND_F64,
            Value::BigInt(_) => KIND_BIGINT,
            Value::Str(_) => KIND_STR,
        }
    }

    pub open spec fn is_container(self) -> bool {
        container_kind(self.kind())
    }

    /// How many bytes of payload the value has.
    pub open spec fn store(self) -> nat {
        match self {
            Value::BigInt(_) => 16,
            Value::Str(text) => encode_utf8(text).len(),
            _ => 8,
        }
    }

    /// How many bytes its payload takes up.
    pub open spec fn size(self) -> nat {
        aligned(self.store() as int) as nat
    }

    /// The payload, word by word.
    pub open spec fn payload(self) -> Seq<u64> {
        match self {
            Value::Bool(b) => seq![b as u64],
            Value::Int(v) => seq![v as u64],
            Value::Float(bits) => seq![bits],
            Value::BigInt(v) => seq![v as u64, (v >> 64) as u64],
            Value::Str(text) => words_of(encode_utf8(text)),
            _ => seq![0u64],
        }
    }
}

/// The 128-bit number with the given words.
pub open spec fn bigint(lo: u64, hi: u64) -> i128 {
    (lo as i128) | ((hi as i128) << 64)
}

/// The words of a 128-bit number give back the number.
pub proof fn lemma_bigint(v: i128)
    ensures
        bigint(v as u64, (v >> 64) as u64) == v,
{
    assert(((v as u64) as i128) | ((((v >> 64) as u64) as i128) << 64) == v) by (bit_vector);
}

/// The word of an integer gives back the integer.
pub proof fn lemma_int(v: i64)
    ensures
        (v as u64) as i64 == v,
{
    assert((v as u64) as i64 == v) by (bit_vector);
}

/// A materialized value read out of the arena.
#[derive(Debug, Clone)]
pub enum RVal {
    Object(u64),
    Array(u64),
    Mapping(u64),
    Null,
    Bool(bool),
    Int(i64),
    /// The bits of a floating point number.
    Float(u64),
    BigInt(i128),
    Str(String),
}

impl View for RVal {
    type V = Value;

    open spec fn view(&self) -> Value {
        match *self {
            RVal::Object(h) => Value::Object(h),
            RVal::Array(h) => Value::Array(h),
            RVal::Mapping(h) => Value::Mapping(h),
            RVal::Null => Value::Null,
            RVal::Bool(b) => Value::Bool(b),
            RVal::Int(v) => Value::Int(v),
            RVal::Float(bits) => Value::Float(bits),
            RVal::BigInt(v) => Value::BigInt(v),
            RVal::Str(s) => Value::Str(s@),
        }
    }
}

/// A scalar to be stored.
#[derive(Debug, Clone)]
pub enum Scalar {
    Null,
    Bool(bool),
    Int(i64),
    /// The bits of a floating point number.
    Float(u64),
    BigInt(i128),
    Str(String),
}

impl View for Scalar {
    type V = Value;

    open spec fn view(&self) -> Value {
        match *self {
            Scalar::Null => Value::Null,
            Scalar::Bool(b) => Value::Bool(b),
            Scalar::Int(v) => Value::Int(v),
            Scalar::Float(bits) => Value::Float(bits),
            Scalar::BigInt(v) => Value::BigInt(v),
            Scalar::Str(s) => Value::Str(s@),
        }
    }
}

impl Scalar {
    /// The kind of node that holds the scalar.
    pub fn kind(&self) -> (kind: u8)
        ensures
            kind == self@.kind(),
            !container_kind(kind),
    {
        match self {
            Scalar::Null => KIND_NULL,
            Scalar::Bool(_) => KIND_BOOL,
            Scalar::Int(_) => KIND_INT,
            Scalar::Float(_) => KIND_F64,
            Scalar::BigInt(_) => KIND_BIGINT,
            Scalar::Str(_) => KIND_STR,
        }
    }

    /// How many bytes the payload of the scalar takes up.
    pub fn size(&self) -> (size: u64)
        requires
            self@.store() + 7 <= u64::MAX,
        ensures
            size == self@.size(),
    {
        match self {
            Scalar::Null | Scalar::Bool(_) => 8,
            Scalar::Int(_) | Scalar::Float(_) => 8,
            Scalar::BigInt(_) => 16,
            Scalar::Str(s) => align_up(s.as_str().as_bytes().len() as u64),
        }
    }
}

/// The scalar that `rv` is; nothing if it is a container.
pub fn rval_to_scalar(rv: RVal) -> (s: Option<Scalar>)
    ensures
        rv@.is_container() <==> s is None,
        s matches Some(v) ==> v@ == rv@,
{
    match rv {
        RVal::Null => Some(Scalar::Null),
        RVal::Bool(b) => Some(Scalar::Bool(b)),
        RVal::Int(i) => Some(Scalar::Int(i)),
        RVal::Float(f) => Some(Scalar::Float(f)),
        RVal::BigInt(b) => Some(Scalar::BigInt(b)),
        RVal::Str(s) => Some(Scalar::Str(s)),
        RVal::Object(_) | RVal::Array(_) | RVal::Mapping(_) => None,
    }
}

/// Why an operation on the graph failed.
#[derive(Debug, Clone, Copy, PartialEq, Eq, Structural)]
pub enum GraphError {
    /// No space is left in the region.
    RegionFull,
    /// All slots of the object or map are in use.
    ContainerFull,
    /// The index lies outside the array.
    ArrayFull,
    /// The value cannot be stored.
    InvalidValue,
    /// The counter could not be created.
    KeyDisappeared,
    /// Another writer did not finish.
    Busy,
}

impl GraphError {
    pub open spec fn text(self) -> Seq<char> {
        match self {
            GraphError::RegionFull => "region full"@,
            GraphError::ContainerFull => "container capacity exceeded"@,
            GraphError::ArrayFull => "array capacity exceeded"@,
            GraphError::InvalidValue => "invalid value"@,
            GraphError::KeyDisappeared => "key disappeared"@,
            GraphError::Busy => "node is locked by another writer"@,
        }
    }

    /// The message for users.
    pub fn message(&self) -> (text: &'static str)
        ensures
            text@ == self.text(),
    {
        match self {
            GraphError::RegionFull => "region full",
            GraphError::ContainerFull => "container capacity exceeded",
            GraphError::ArrayFull => "array capacity exceeded",
            GraphError::InvalidValue => "invalid value",
            GraphError::KeyDisappeared => "key disappeared",
            GraphError::Busy => "node is locked by another writer",
        }
    }
}

} // verus!
