//! What is handed over, and what comes back.
//!
//! The laws speak of the calls themselves: `call_ensures(f, args, r)` says that a call of `f` with
//! the arguments `args` may have given `r`.
use crate::arena::{align_up, seq_is_odd};
use crate::js::{
    from_graph, js_scalar, key_arg, rval_to_js, stored_as, word_or_zero, ApiError, JsInput, JsKey,
    JsOutput, KeyArg,
};
use crate::node::successor;
use crate::noderef::NodeRef;
use crate::number::{finite, has_magnitude, mantissa, negative, scale, signed, whole_number, EDGE};
use crate::value::{
    bigint, hkind, hoff, is_container, is_scalar, lemma_handle, make_handle, rval_to_scalar,
    GraphError, RVal, Scalar, Value,
};
use vstd::arithmetic::power2::pow2;
use vstd::prelude::*;
use vstd::utf8::encode_utf8;

verus! {

// Keys.

/// A text that is used as a key names the key that is that very text, all of it.
pub proof fn law_text_names_itself(s: String, r: Result<KeyArg, ApiError>)
    requires
        call_ensures(key_arg, (JsKey::Text(s),), r),
    ensures
        r matches Ok(KeyArg::Key(t)) && t@ == s@,
{
}

/// A number that is used as a key names the index that is that very number, if there are indices
/// of that size at all; a larger one names the largest index, which lies behind the end of every
/// array. There are no negative indices.
pub proof fn law_number_names_its_index(n: i64, r: Result<KeyArg, ApiError>)
    requires
        call_ensures(key_arg, (JsKey::Number(n),), r),
    ensures
        0 <= n <= u32::MAX ==> (r matches Ok(KeyArg::Index(i)) && i == n),
        n > u32::MAX ==> (r matches Ok(KeyArg::Index(i)) && i == u32::MAX),
        n < 0 ==> r == Err::<KeyArg, ApiError>(ApiError::NegativeIndex),
{
}

/// Different keys name different things: different texts different keys, different numbers
/// different indices, if they are not larger than all indices.
pub proof fn law_different_keys_differ(
    a: JsKey,
    b: JsKey,
    r: Result<KeyArg, ApiError>,
    q: Result<KeyArg, ApiError>,
)
    requires
        call_ensures(key_arg, (a,), r),
        call_ensures(key_arg, (b,), q),
        r is Ok,
        q is Ok,
        r->Ok_0@ == q->Ok_0@,
    ensures
        match (a, b) {
            (JsKey::Text(s), JsKey::Text(t)) => s@ == t@,
            (JsKey::Number(n), JsKey::Number(m)) => n == m || n >= u32::MAX && m >= u32::MAX,
            _ => false,
        },
{
}

// Numbers.

/// The double with the bits `bits` is the integer `n`: a sign, eleven bits of exponent `e` and
/// fifty-two bits of fraction `f` stand for `f` with a leading one, times two to the power
/// `e` minus 1075; if the exponent is zero, there is no leading one and the power is that of one.
pub open spec fn double_is(bits: u64, n: int) -> bool {
    let e = (bits / 0x10_0000_0000_0000) % 0x800;
    let f = (bits % 0x10_0000_0000_0000) as int;
    let digits = if e == 0 {
        f
    } else {
        f + 0x10_0000_0000_0000
    };
    let power = if e == 0 {
        1nat
    } else {
        e as nat
    };
    &&& e != 0x7ff
    &&& n * pow2(1075) == pow2(power) * if bits >= 0x8000_0000_0000_0000 {
        -digits
    } else {
        digits
    }
}

/// The double is `n`, or the one number that is just too large for a 64-bit integer, and `n` is the
/// largest of these.
pub open spec fn double_gives(bits: u64, n: i64) -> bool {
    double_is(bits, n as int) || n == i64::MAX && double_is(bits, 0x8000_0000_0000_0000)
}

/// The double is none of the 64-bit integers.
pub open spec fn double_gives_none(bits: u64) -> bool {
    forall|n: int| #[trigger] double_is(bits, n) ==> n < i64::MIN || n > 0x8000_0000_0000_0000
}

/// A double and its magnitude.
proof fn lemma_double(bits: u64, k: nat)
    requires
        finite(bits),
    ensures
        has_magnitude(bits, k) ==> double_is(
            bits,
            if negative(bits) {
                -k
            } else {
                k as int
            },
        ),
{
    let m = mantissa(bits) as int;
    let p = pow2(1075) as int;
    let q = pow2(scale(bits)) as int;
    if has_magnitude(bits, k) {
        assert(k * p == m * q);
        assert((-k) * p == q * (-m)) by (nonlinear_arith)
            requires
                k * p == m * q,
        ;
        assert(k * p == q * m) by (nonlinear_arith)
            requires
                k * p == m * q,
        ;
    }
}

/// The magnitude of a double that is an integer.
proof fn lemma_magnitude(bits: u64, n: int)
    requires
        double_is(bits, n),
    ensures
        finite(bits),
        has_magnitude(
            bits,
            (if n < 0 {
                -n
            } else {
                n
            }) as nat,
        ),
{
    let m = mantissa(bits) as int;
    let p = pow2(1075) as int;
    let q = pow2(scale(bits)) as int;
    vstd::arithmetic::power2::lemma_pow2_pos(1075);
    vstd::arithmetic::power2::lemma_pow2_pos(scale(bits));
    if negative(bits) {
        assert(n <= 0 && (-n) * p == m * q) by (nonlinear_arith)
            requires
                n * p == q * (-m),
                p > 0,
                q > 0,
                m >= 0,
        ;
    } else {
        assert(n >= 0 && n * p == m * q) by (nonlinear_arith)
            requires
                n * p == q * m,
                p > 0,
                q > 0,
                m >= 0,
        ;
    }
}

/// A double is told to be an integer if and only if it is one that 64 bits can hold, and then to be
/// the integer that it is.
pub proof fn law_whole_number(bits: u64, r: Option<i64>)
    requires
        call_ensures(whole_number, (bits,), r),
    ensures
        match r {
            Some(n) => double_gives(bits, n),
            None => double_gives_none(bits),
        },
{
    match r {
        Some(n) => {
            let k = choose|k: nat| #[trigger]
                has_magnitude(bits, k) && k <= EDGE && n == signed(bits, k);
            lemma_double(bits, k);
        },
        None => {
            assert forall|n: int| #[trigger] double_is(bits, n) implies n < i64::MIN || n
                > 0x8000_0000_0000_0000 by {
                lemma_magnitude(bits, n);
            }
        },
    }
}

/// The number that follows another is one more; behind the largest comes the smallest.
pub proof fn law_successor(v: i64)
    ensures
        v < i64::MAX ==> successor(v) == v + 1,
        v == i64::MAX ==> successor(v) == i64::MIN,
{
}

// Values.

/// What the words of a number without sign come to, as far as 128 bits go.
pub open spec fn low_bits(words: Seq<u64>) -> int {
    (if words.len() > 0 {
        words[0] as int
    } else {
        0
    }) + 0x1_0000_0000_0000_0000 * (if words.len() > 1 {
        words[1] as int
    } else {
        0
    })
}

/// The number that the words and the sign stand for, as far as 128 bits go.
pub open spec fn signed_bits(negative: bool, words: Seq<u64>) -> int {
    if negative {
        -low_bits(words)
    } else {
        low_bits(words)
    }
}

/// The lowest 128 bits of the numbers are the same.
pub open spec fn same_low_bits(a: int, b: int) -> bool {
    (a - b) % (0x1_0000_0000_0000_0000int * 0x1_0000_0000_0000_0000int) == 0
}

/// `out` is the value that was handed over as `input`. Nothing and no value are both null. Of a big
/// number that does not fit into 128 bits the lowest 128 are left.
pub open spec fn comes_back(input: JsInput, out: JsOutput) -> bool {
    match input {
        JsInput::Null | JsInput::Undefined => out is Null,
        JsInput::Boolean(b) => out matches JsOutput::Boolean(c) && c == b,
        JsInput::Number(bits) => match out {
            JsOutput::Int(n) => double_gives(bits, n),
            JsOutput::Number(same) => same == bits && double_gives_none(bits),
            _ => false,
        },
        JsInput::Text(s) => out matches JsOutput::Text(t) && t@ == s@,
        JsInput::BigInt { negative, words } => out matches JsOutput::BigInt(v) && same_low_bits(
            v as int,
            signed_bits(negative, words@),
        ),
        JsInput::Other => false,
    }
}

/// `rv` is what was stored as `s`.
pub open spec fn read_back(s: Scalar, rv: RVal) -> bool {
    match s {
        Scalar::Null => rv is Null,
        Scalar::Bool(b) => rv matches RVal::Bool(c) && c == b,
        Scalar::Int(n) => rv matches RVal::Int(m) && m == n,
        Scalar::Float(bits) => rv matches RVal::Float(same) && same == bits,
        Scalar::BigInt(n) => rv matches RVal::BigInt(m) && m == n,
        Scalar::Str(s) => rv matches RVal::Str(t) && t@ == s@,
    }
}

/// Both show the same value.
pub open spec fn same_output(a: JsOutput, b: JsOutput) -> bool {
    match a {
        JsOutput::Null => b is Null,
        JsOutput::Boolean(x) => b matches JsOutput::Boolean(y) && y == x,
        JsOutput::Int(x) => b matches JsOutput::Int(y) && y == x,
        JsOutput::Number(x) => b matches JsOutput::Number(y) && y == x,
        JsOutput::BigInt(x) => b matches JsOutput::BigInt(y) && y == x,
        JsOutput::Text(x) => b matches JsOutput::Text(y) && y@ == x@,
    }
}

/// Both are the same value.
pub open spec fn same_value(a: RVal, b: RVal) -> bool {
    match a {
        RVal::Null => b is Null,
        RVal::Bool(x) => b matches RVal::Bool(y) && y == x,
        RVal::Int(x) => b matches RVal::Int(y) && y == x,
        RVal::Float(x) => b matches RVal::Float(y) && y == x,
        RVal::BigInt(x) => b matches RVal::BigInt(y) && y == x,
        RVal::Str(x) => b matches RVal::Str(y) && y@ == x@,
        RVal::Object(x) => b matches RVal::Object(y) && y == x,
        RVal::Array(x) => b matches RVal::Array(y) && y == x,
        RVal::Mapping(x) => b matches RVal::Mapping(y) && y == x,
    }
}

/// The two words of a number are its lower and its upper half; the upper half has the sign.
proof fn lemma_bigint_words(lo: u64, hi: u64)
    ensures
        bigint(lo, hi) == lo + 0x1_0000_0000_0000_0000 * if hi >= 0x8000_0000_0000_0000 {
            hi - 0x1_0000_0000_0000_0000
        } else {
            hi as int
        },
{
    let v = (lo as i128) | ((hi as i128) << 64);
    assert(hi < 0x8000_0000_0000_0000 ==> v == lo + 0x1_0000_0000_0000_0000 * hi) by (bit_vector)
        requires
            v == (lo as i128) | ((hi as i128) << 64),
    ;
    assert(hi >= 0x8000_0000_0000_0000 ==> v == lo + 0x1_0000_0000_0000_0000 * (hi
        - 0x1_0000_0000_0000_0000)) by (bit_vector)
        requires
            v == (lo as i128) | ((hi as i128) << 64),
    ;
}

/// A value that is handed over, stored, read and handed back is the value that it was: two booleans
/// that differ, two texts, two numbers are never taken for each other. What is no scalar is not
/// stored.
pub proof fn law_value_comes_back(input: JsInput, s: Option<Scalar>, rv: RVal, out: JsOutput)
    requires
        call_ensures(js_scalar, (input,), s),
        s matches Some(scalar) ==> read_back(scalar, rv),
        call_ensures(rval_to_js, (rv,), out),
    ensures
        s is None <==> input is Other,
        s is Some ==> comes_back(input, out),
{
    if let Some(scalar) = s {
        lemma_comes_back(input, scalar@, out);
    }
}

/// What is stored for a value shows as that value.
pub proof fn lemma_comes_back(input: JsInput, v: Value, out: JsOutput)
    requires
        stored_as(input, v),
        out@ == v,
    ensures
        comes_back(input, out),
{
    if let JsInput::Number(bits) = input {
        if let Value::Int(n) = v {
            let k = choose|k: nat| #[trigger]
                has_magnitude(bits, k) && k <= EDGE && n == signed(bits, k);
            lemma_double(bits, k);
        } else {
            assert forall|n: int| #[trigger] double_is(bits, n) implies n < i64::MIN || n
                > 0x8000_0000_0000_0000 by {
                lemma_magnitude(bits, n);
            }
        }
    }
    if let JsInput::BigInt { negative, words } = input {
        lemma_bigint_words(word_or_zero(words@, 0), word_or_zero(words@, 1));
    }
}

/// Inputs that are stored as the same scalar are the same value: the same boolean, the same text,
/// numbers that are the same integer or have the same bits.
pub proof fn law_different_values_differ(
    a: JsInput,
    b: JsInput,
    s: Option<Scalar>,
    t: Option<Scalar>,
)
    requires
        call_ensures(js_scalar, (a,), s),
        call_ensures(js_scalar, (b,), t),
        s is Some,
        t is Some,
        s->Some_0@ == t->Some_0@,
    ensures
        match (a, b) {
            (JsInput::Boolean(x), JsInput::Boolean(y)) => x == y,
            (JsInput::Text(x), JsInput::Text(y)) => x@ == y@,
            (JsInput::Number(x), JsInput::Number(y)) => x == y || exists|n: i64| #[trigger]
                double_gives(x, n) && double_gives(y, n),
            (JsInput::BigInt { negative: p, words: x }, JsInput::BigInt {
                negative: q,
                words: y,
            }) => same_low_bits(signed_bits(p, x@), signed_bits(q, y@)),
            (JsInput::Null | JsInput::Undefined, JsInput::Null | JsInput::Undefined) => true,
            _ => false,
        },
{
    if let (JsInput::Number(x), JsInput::Number(y)) = (a, b) {
        if let Value::Int(n) = s->Some_0@ {
            let k = choose|k: nat| #[trigger] has_magnitude(x, k) && k <= EDGE && n == signed(x, k);
            let j = choose|j: nat| #[trigger] has_magnitude(y, j) && j <= EDGE && n == signed(y, j);
            lemma_double(x, k);
            lemma_double(y, j);
            assert(double_gives(x, n) && double_gives(y, n));
        }
    }
    if let (JsInput::BigInt { negative: p, words: x }, JsInput::BigInt { negative: q, words: y }) = (
        a,
        b,
    ) {
        lemma_bigint_words(word_or_zero(x@, 0), word_or_zero(x@, 1));
        lemma_bigint_words(word_or_zero(y@, 0), word_or_zero(y@, 1));
    }
}

/// What is read is shown as it is, text for text and number for number; a container is not a value,
/// and shows as null.
pub proof fn law_shown_as_it_is(rv: RVal, out: JsOutput)
    requires
        call_ensures(rval_to_js, (rv,), out),
    ensures
        match rv {
            RVal::Null | RVal::Object(_) | RVal::Array(_) | RVal::Mapping(_) => out is Null,
            RVal::Bool(b) => out matches JsOutput::Boolean(c) && c == b,
            RVal::Int(n) => out matches JsOutput::Int(m) && m == n,
            RVal::Float(bits) => out matches JsOutput::Number(same) && same == bits,
            RVal::BigInt(n) => out matches JsOutput::BigInt(m) && m == n,
            RVal::Str(s) => out matches JsOutput::Text(t) && t@ == s@,
        },
{
}

/// What is read and stored again is the same value; a container is none.
pub proof fn law_scalar_of_what_is_read(rv: RVal, s: Option<Scalar>)
    requires
        call_ensures(rval_to_scalar, (rv,), s),
    ensures
        match s {
            Some(scalar) => read_back(scalar, rv),
            None => rv is Object || rv is Array || rv is Mapping,
        },
{
}

// Handles, kinds and sizes.

/// A handle gives back the kind and the offset that it was made of, and whether it is that of a
/// container: an object is of kind 1, an array of kind 2, a map of kind 3.
pub proof fn law_handle_gives_back(
    kind: u8,
    off: u64,
    h: u64,
    k: u8,
    o: u64,
    container: bool,
    scalar: bool,
)
    requires
        off < 0x100_0000_0000_0000,
        call_ensures(make_handle, (kind, off), h),
        call_ensures(hkind, (h,), k),
        call_ensures(hoff, (h,), o),
        call_ensures(is_container, (h,), container),
        call_ensures(is_scalar, (h,), scalar),
    ensures
        k == kind,
        o == off,
        h == kind * 0x100_0000_0000_0000 + off,
        container <==> 1 <= kind <= 3,
        scalar <==> !container && h != 0,
{
    lemma_handle(kind, off);
}

/// The name of a kind, and the questions for containers, go by the topmost byte of the handle.
pub proof fn law_kind_names(
    node: NodeRef,
    name: String,
    object: bool,
    array: bool,
    map: bool,
    base: u64,
)
    requires
        call_ensures(NodeRef::node_type, (&node,), name),
        call_ensures(NodeRef::is_object, (&node,), object),
        call_ensures(NodeRef::is_array, (&node,), array),
        call_ensures(NodeRef::is_map, (&node,), map),
        call_ensures(NodeRef::base, (&node,), base),
    ensures
        ({
            let kind = node.handle / 0x100_0000_0000_0000;
            &&& object <==> kind == 1
            &&& array <==> kind == 2
            &&& map <==> kind == 3
            &&& object ==> name@ == "Object"@
            &&& array ==> name@ == "Array"@
            &&& map ==> name@ == "Map"@
            &&& kind == 5 ==> name@ == "Boolean"@
            &&& kind == 6 || kind == 7 ==> name@ == "Number"@
            &&& kind == 8 ==> name@ == "BigInt"@
            &&& kind == 9 ==> name@ == "String"@
            &&& kind == 0 || kind == 4 || kind > 9 ==> name@ == "Null"@
        }),
        base == node.base,
{
}

/// The kind of a scalar tells its type, and its size is that of whole words, as few as hold it.
pub proof fn law_scalar_kind_and_size(s: Scalar, kind: u8, size: u64)
    requires
        s matches Scalar::Str(text) ==> encode_utf8(text@).len() + 7 <= u64::MAX,
        call_ensures(Scalar::kind, (&s,), kind),
        call_ensures(Scalar::size, (&s,), size),
    ensures
        match s {
            Scalar::Null => kind == 4 && size == 8,
            Scalar::Bool(_) => kind == 5 && size == 8,
            Scalar::Int(_) => kind == 6 && size == 8,
            Scalar::Float(_) => kind == 7 && size == 8,
            Scalar::BigInt(_) => kind == 8 && size == 16,
            Scalar::Str(text) => {
                let len = encode_utf8(text@).len();
                kind == 9 && size % 8 == 0 && len <= size < len + 8
            },
        },
{
}

/// Rounding up gives the next multiple of eight.
pub proof fn law_align_up(n: u64, r: u64)
    requires
        n + 7 <= u64::MAX,
        call_ensures(align_up, (n,), r),
    ensures
        r % 8 == 0,
        n <= r < n + 8,
{
}

/// A version is odd if its lowest bit is set.
pub proof fn law_odd(seq: u64, r: bool)
    requires
        call_ensures(seq_is_odd, (seq,), r),
    ensures
        r <==> seq % 2 == 1,
{
}

// Errors.

/// What users are told when an operation on the graph fails, and when a call does.
pub proof fn law_messages(e: GraphError, a: ApiError, graph: &'static str, api: &'static str)
    requires
        call_ensures(GraphError::message, (&e,), graph),
        call_ensures(ApiError::message, (&a,), api),
    ensures
        match e {
            GraphError::RegionFull => graph@ == "region full"@,
            GraphError::ContainerFull => graph@ == "container capacity exceeded"@,
            GraphError::ArrayFull => graph@ == "array capacity exceeded"@,
            GraphError::InvalidValue => graph@ == "invalid value"@,
            GraphError::KeyDisappeared => graph@ == "key disappeared"@,
            GraphError::Busy => graph@ == "node is locked by another writer"@,
        },
        a == ApiError::Graph(e) ==> api@ == graph@,
        match a {
            ApiError::Graph(_) => true,
            ApiError::CapacityExceeded => api@ == "region capacity exceeded"@,
            ApiError::RootFull => api@ == "region full"@,
            ApiError::NegativeIndex => api@ == "index cannot be negative"@,
            ApiError::IndexWanted => api@ == "use an array index (number) for arrays"@,
            ApiError::TextWanted => api@ == "object/map keys must be strings"@,
            ApiError::NodeToSet => api@ == "use set_node(key, nodeRef) for containers"@,
            ApiError::NotAnArray => api@ == "push is only valid on arrays"@,
            ApiError::NodeToPush => api@ == "use push_node for containers"@,
            ApiError::CounterByIndex => api@ == "increment requires a string key"@,
            ApiError::NoMemory => api@ == "buffer is not backed by memory"@,
            ApiError::Unaligned => api@ == "buffer is not aligned to words"@,
            ApiError::SabCreated => api@ == "sab regions are created via wrap(arrayBuffer)"@,
            ApiError::SabAttached => api@ == "sab regions are attached via wrap(arrayBuffer)"@,
        },
{
}

/// A call hands on what the operation on the graph gave, and its error as it is.
pub proof fn law_result_is_handed_on<T>(r: Result<T, GraphError>, s: Result<T, ApiError>)
    requires
        call_ensures(from_graph::<T>, (r,), s),
    ensures
        match r {
            Ok(v) => s matches Ok(w) && w == v,
            Err(e) => s matches Err(ApiError::Graph(f)) && f == e,
        },
{
}

} // verus!
