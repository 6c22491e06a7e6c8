//! Keys and values as JavaScript hands them over.
use crate::number::{finite, has_magnitude, whole, whole_number, EDGE};
use crate::value::{bigint, GraphError, RVal, Scalar, Value};
use vstd::prelude::*;

verus! {

/// Why a call was refused.
#[derive(Debug, Clone, Copy, PartialEq, Eq, Structural)]
pub enum ApiError {
    /// The operation on the graph failed.
    Graph(GraphError),
    /// No space is left for a node.
    CapacityExceeded,
    /// No space is left for the root.
    RootFull,
    NegativeIndex,
    /// An array was asked for a text.
    IndexWanted,
    /// An object or map was asked for a number.
    TextWanted,
    /// A container was handed over as a value.
    NodeToSet,
    NotAnArray,
    /// A container was handed over to be appended as a value.
    NodeToPush,
    /// A counter was asked for by number.
    CounterByIndex,
    /// The buffer has no memory.
    NoMemory,
    /// The buffer does not begin at a word.
    Unaligned,
    SabCreated,
    SabAttached,
}

impl ApiError {
    pub open spec fn text(self) -> Seq<char> {
        match self {
            ApiError::Graph(e) => e.text(),
            ApiError::CapacityExceeded => "region capacity exceeded"@,
            ApiError::RootFull => "region full"@,
            ApiError::NegativeIndex => "index cannot be negative"@,
            ApiError::IndexWanted => "use an array index (number) for arrays"@,
            ApiError::TextWanted => "object/map keys must be strings"@,
            ApiError::NodeToSet => "use set_node(key, nodeRef) for containers"@,
            ApiError::NotAnArray => "push is only valid on arrays"@,
            ApiError::NodeToPush => "use push_node for containers"@,
            ApiError::CounterByIndex => "increment requires a string key"@,
            ApiError::NoMemory => "buffer is not backed by memory"@,
            ApiError::Unaligned => "buffer is not aligned to words"@,
            ApiError::SabCreated => "sab regions are created via wrap(arrayBuffer)"@,
            ApiError::SabAttached => "sab regions are attached via wrap(arrayBuffer)"@,
        }
    }

    /// The message for users.
    pub fn message(&self) -> (text: &'static str)
        ensures
            text@ == self.text(),
    {
        match self {
            ApiError::Graph(e) => e.message(),
            ApiError::CapacityExceeded => "region capacity exceeded",
            ApiError::RootFull => "region full",
            ApiError::NegativeIndex => "index cannot be negative",
            ApiError::IndexWanted => "use an array index (number) for arrays",
            ApiError::TextWanted => "object/map keys must be strings",
            ApiError::NodeToSet => "use set_node(key, nodeRef) for containers",
            ApiError::NotAnArray => "push is only valid on arrays",
            ApiError::NodeToPush => "use push_node for containers",
            ApiError::CounterByIndex => "increment requires a string key",
            ApiError::NoMemory => "buffer is not backed by memory",
            ApiError::Unaligned => "buffer is not aligned to words",
            ApiError::SabCreated => "sab regions are created via wrap(arrayBuffer)",
            ApiError::SabAttached => "sab regions are attached via wrap(arrayBuffer)",
        }
    }
}

/// The error of a call, when the operation on the graph failed.
pub open spec fn graph_result<T>(r: Result<T, GraphError>) -> Result<T, ApiError> {
    match r {
        Ok(v) => Ok(v),
        Err(e) => Err(ApiError::Graph(e)),
    }
}

/// Hands on what an operation on the graph gave.
pub fn from_graph<T>(r: Result<T, GraphError>) -> (s: Result<T, ApiError>)
    ensures
        s == graph_result(r),
{
    match r {
        Ok(v) => Ok(v),
        Err(e) => Err(ApiError::Graph(e)),
    }
}

// Keys.

/// A key as JavaScript hands it over: a number, rounded to an integer, or the text of
/// anything else.
#[derive(Debug, Clone)]
pub enum JsKey {
    Number(i64),
    Text(String),
}

/// A parsed key: an index of an array, or a key of an object or map.
#[derive(Debug, Clone)]
pub enum KeyArg {
    Index(u32),
    Key(String),
}

/// What a key names.
pub ghost enum KeyName {
    Index(u32),
    Key(Seq<char>),
}

impl View for KeyArg {
    type V = KeyName;

    open spec fn view(&self) -> KeyName {
        match *self {
            KeyArg::Index(i) => KeyName::Index(i),
            KeyArg::Key(s) => KeyName::Key(s@),
        }
    }
}

/// What the key names. A number that is too large for an index names the largest one, which
/// lies behind the end of every array.
pub open spec fn key_name(k: JsKey) -> Result<KeyName, ApiError> {
    match k {
        JsKey::Number(n) => if n < 0 {
            Err(ApiError::NegativeIndex)
        } else {
            Ok(
                KeyName::Index(
                    if n <= u32::MAX {
                        n as u32
                    } else {
                        u32::MAX
                    },
                ),
            )
        },
        JsKey::Text(s) => Ok(KeyName::Key(s@)),
    }
}

/// Parses a key.
pub fn key_arg(k: JsKey) -> (r: Result<KeyArg, ApiError>)
    ensures
        match key_name(k) {
            Ok(name) => r matches Ok(arg) && arg@ == name,
            Err(e) => r == Err::<KeyArg, ApiError>(e),
        },
{
    match k {
        JsKey::Number(n) => {
            if n < 0 {
                return Err(ApiError::NegativeIndex);
            }
            if n > u32::MAX as i64 {
                return Ok(KeyArg::Index(u32::MAX));
            }
            Ok(KeyArg::Index(n as u32))
        },
        JsKey::Text(s) => Ok(KeyArg::Key(s)),
    }
}

// Values.

/// A value as JavaScript hands it over.
#[derive(Debug, Clone)]
pub enum JsInput {
    Null,
    Undefined,
    Boolean(bool),
    /// The bits of a number.
    Number(u64),
    Text(String),
    /// The words of a number, the lowest first.
    BigInt { negative: bool, words: Vec<u64> },
    /// An object, a function or a symbol.
    Other,
}

/// Word `i`, or zero if there is none.
pub open spec fn word_or_zero(words: Seq<u64>, i: int) -> u64 {
    if i < words.len() {
        words[i]
    } else {
        0
    }
}

/// `v` with its sign turned; the least number has no counterpart, and stays as it is.
pub open spec fn negated(v: i128) -> i128 {
    if v == i128::MIN {
        v
    } else {
        (-v) as i128
    }
}

/// The 128-bit number of the two lowest words, with its sign.
pub open spec fn signed(negative: bool, words: Seq<u64>) -> i128 {
    let v = bigint(word_or_zero(words, 0), word_or_zero(words, 1));
    if negative {
        negated(v)
    } else {
        v
    }
}

/// `v` is the scalar that is stored for `input`. Numbers that are 64-bit integers are
/// stored as such. Of a big number the sign and the two lowest words are kept.
pub open spec fn stored_as(input: JsInput, v: Value) -> bool {
    match input {
        JsInput::Null | JsInput::Undefined => v == Value::Null,
        JsInput::Boolean(b) => v == Value::Bool(b),
        JsInput::Number(bits) => match v {
            Value::Int(n) => whole(bits, n),
            Value::Float(f) => f == bits && (!finite(bits) || forall|k: nat| #[trigger]
                has_magnitude(bits, k) ==> k > EDGE),
            _ => false,
        },
        JsInput::Text(s) => v == Value::Str(s@),
        JsInput::BigInt { negative, words } => v == Value::BigInt(signed(negative, words@)),
        JsInput::Other => false,
    }
}

/// The scalar that is stored for a value; nothing if it is none.
pub fn js_scalar(input: JsInput) -> (s: Option<Scalar>)
    ensures
        s is None <==> input is Other,
        s matches Some(scalar) ==> stored_as(input, scalar@),
{
    match input {
        JsInput::Null | JsInput::Undefined => Some(Scalar::Null),
        JsInput::Boolean(b) => Some(Scalar::Bool(b)),
        JsInput::Number(bits) => match whole_number(bits) {
            Some(n) => Some(Scalar::Int(n)),
            None => Some(Scalar::Float(bits)),
        },
        JsInput::Text(s) => Some(Scalar::Str(s)),
        JsInput::BigInt { negative, words } => {
            let lo: u64 = if words.len() > 0 {
                words[0]
            } else {
                0
            };
            let hi: u64 = if words.len() > 1 {
                words[1]
            } else {
                0
            };
            let v: i128 = (lo as i128) | ((hi as i128) << 64);
            if negative && v != i128::MIN {
                Some(Scalar::BigInt(-v))
            } else {
                Some(Scalar::BigInt(v))
            }
        },
        JsInput::Other => None,
    }
}

/// A value that is handed to JavaScript.
#[derive(Debug, Clone)]
pub enum JsOutput {
    Null,
    Boolean(bool),
    Int(i64),
    /// The bits of a number.
    Number(u64),
    BigInt(i128),
    Text(String),
}

impl View for JsOutput {
    type V = Value;

    open spec fn view(&self) -> Value {
        match *self {
            JsOutput::Null => Value::Null,
            JsOutput::Boolean(b) => Value::Bool(b),
            JsOutput::Int(n) => Value::Int(n),
            JsOutput::Number(bits) => Value::Float(bits),
            JsOutput::BigInt(n) => Value::BigInt(n),
            JsOutput::Text(s) => Value::Str(s@),
        }
    }
}

/// What is shown of a value: containers show as null.
pub open spec fn shown(v: Value) -> Value {
    if v.is_container() {
        Value::Null
    } else {
        v
    }
}

/// The value to hand to JavaScript.
pub fn rval_to_js(rv: RVal) -> (out: JsOutput)
    ensures
        out@ == shown(rv@),
{
    match rv {
        RVal::Null => JsOutput::Null,
        RVal::Bool(b) => JsOutput::Boolean(b),
        RVal::Int(i) => JsOutput::Int(i),
        RVal::Float(f) => JsOutput::Number(f),
        RVal::BigInt(b) => JsOutput::BigInt(b),
        RVal::Str(s) => JsOutput::Text(s),
        RVal::Object(_) | RVal::Array(_) | RVal::Mapping(_) => JsOutput::Null,
    }
}

} // verus!
