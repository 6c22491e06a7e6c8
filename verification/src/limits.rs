//! When calls on references succeed, when they are refused, and what is then left as it was.
//!
//! The calls are those of `steps`, on a region that is in order and that nobody else changes
//! meanwhile.
use crate::arena::region_header;
use crate::effects::{key_kept, lemma_free_slot, lemma_replaced, lemma_scalar_put, others_kept};
use crate::js::{stored_as, ApiError, JsInput, JsKey, JsOutput, KeyName};
use crate::laws::{law_link_then_get, law_when_put_is_refused};
use crate::layout::{
    bump_of, cap_of, changed_at, count_of, is_node, lemma_node, lemma_with_scalar, live, live_table,
    wf,
};
use crate::memory::{word, Memory};
use crate::node::reusable;
use crate::noderef::{value_set, NodeRef};
use crate::steps::{
    delete_gives, get_node_gives, get_value_gives, has_gives, increment_gives, lemma_get_value,
    lemma_has, lemma_increment, lemma_length, lemma_read_handle, lemma_set, lemma_set_node,
    length_gives, node_stored, push_gives, push_node_gives, read_handle_gives, set_gives,
    set_node_gives, value_stored,
};
use crate::tables::{
    counted, handle_for, lemma_rewritten, lemma_slot_from, replaceable, scalar_put, slot_of,
};
use crate::usage::{
    elsewhere, lemma_kind_of_value, lemma_leads_to, lemma_on_table, lemma_read_live,
    lemma_reads_alike, lemma_same_shown, lemma_text_read, on_table, reads_alike, same_result,
};
use crate::value::{container_kind, kind_of, off_of, GraphError, Value, H_INVALID};

use vstd::prelude::*;
use vstd::utf8::encode_utf8;

verus! {

/// How many bytes a value has: a text as many as in UTF-8, a large integer sixteen.
pub open spec fn bytes_of(value: JsInput) -> nat {
    match value {
        JsInput::Text(s) => encode_utf8(s@).len(),
        JsInput::BigInt { .. } => 16,
        _ => 8,
    }
}

/// How many bytes the node for so many bytes takes up: a header, and as many words as they need.
pub open spec fn node_bytes(n: nat) -> int {
    40 + (n as int + 7) / 8 * 8
}

/// A node can have so many bytes.
pub open spec fn fits_a_node(n: nat) -> bool {
    n <= 0xffff_fff8
}

/// How many bytes of the region are not used yet.
pub open spec fn room(ws: Seq<u64>) -> int {
    region_header(ws).capacity - bump_of(ws)
}

/// The value that is stored has as many bytes as the one that was handed over.
pub proof fn lemma_bytes(value: JsInput, v: Value)
    requires
        stored_as(value, v),
    ensures
        v.store() == bytes_of(value),
        40 + v.size() == node_bytes(bytes_of(value)),
        !v.is_container(),
{
}

proof fn lemma_when_stored(
    ws: Seq<u64>,
    h: u64,
    a: Seq<char>,
    value: JsInput,
    r: Result<(), ApiError>,
    xs: Seq<u64>,
)
    requires
        wf(ws),
        live_table(ws, h),
        value_stored(ws, h, KeyName::Key(a), value, r, xs),
    ensures
        ({
            let c = off_of(h) as int;
            let n = encode_utf8(a).len();
            let v = bytes_of(value);
            &&& handle_for(ws, c, a) == H_INVALID ==> {
                &&& count_of(ws, c) == cap_of(ws, c) ==> r == Err::<(), ApiError>(
                    ApiError::Graph(GraphError::ContainerFull),
                )
                &&& count_of(ws, c) < cap_of(ws, c) ==> (r is Ok <==> fits_a_node(n)
                    && fits_a_node(v) && node_bytes(n) + node_bytes(v) <= room(ws))
                &&& count_of(ws, c) < cap_of(ws, c) && r is Err ==> r == Err::<
                    (),
                    ApiError,
                >(ApiError::Graph(GraphError::RegionFull))
            }
            &&& handle_for(ws, c, a) != H_INVALID ==> {
                &&& fits_a_node(v) && node_bytes(v) <= room(ws) ==> r is Ok
                &&& r is Err ==> r == Err::<(), ApiError>(ApiError::Graph(GraphError::RegionFull))
            }
        }),
{
    reveal(value_stored);
    let c = off_of(h) as int;
    lemma_on_table(ws, h);
    let v = choose|v: Value| #[trigger]
        stored_as(value, v) && (r, xs) == value_set(ws, h, KeyName::Key(a), v);
    lemma_bytes(value, v);
    law_when_put_is_refused(ws, c, a, v);
    lemma_leads_to(ws, c, a);
}

/// When setting a text of an object or map succeeds. A text that is not there yet needs a free
/// place, and space for itself and for the value. One that is there needs at most space for the
/// value. The refusal says which of the two was missing.
pub proof fn law_when_set_succeeds<M: Memory>(
    node: NodeRef,
    a: String,
    value: JsInput,
    k: &mut M,
    l: &mut M,
    m: &mut M,
    had: Result<bool, ApiError>,
    len: u32,
    r: Result<(), ApiError>,
)
    requires
        on_table(*old(k), node),
        value !is Other,
        has_gives(node, k, JsKey::Text(a), had),
        *old(l) == *final(k),
        length_gives(node, l, len),
        *old(m) == *final(l),
        set_gives(node, m, JsKey::Text(a), value, r),
        final(m).undisturbed(),
    ensures
        had is Ok,
        ({
            let cap = cap_of(old(m).words(), off_of(node.handle) as int);
            let n = encode_utf8(a@).len();
            let v = bytes_of(value);
            let left = room(old(m).words());
            &&& len <= cap
            &&& !had->Ok_0 && len == cap ==> r == Err::<(), ApiError>(
                ApiError::Graph(GraphError::ContainerFull),
            )
            &&& !had->Ok_0 && len < cap && fits_a_node(n) && fits_a_node(v) && node_bytes(n)
                + node_bytes(v) <= left ==> r is Ok
            &&& !had->Ok_0 && len < cap && !(fits_a_node(n) && fits_a_node(v) && node_bytes(n)
                + node_bytes(v) <= left) ==> r == Err::<(), ApiError>(
                ApiError::Graph(GraphError::RegionFull),
            )
            &&& had->Ok_0 && fits_a_node(v) && node_bytes(v) <= left ==> r is Ok
            &&& had->Ok_0 && r is Err ==> r == Err::<(), ApiError>(
                ApiError::Graph(GraphError::RegionFull),
            )
        }),
{
    lemma_set(node, m, JsKey::Text(a), value, r);
    lemma_length(node, l, len);
    lemma_has(node, k, JsKey::Text(a), had);
    let ws = old(m).words();
    lemma_on_table(ws, node.handle);
    lemma_text_read(ws, node.handle, a);
    lemma_when_stored(ws, node.handle, a@, value, r, final(m).words());
}

/// The node behind `g` has space for a value of its own kind: a text for one that is not longer
/// than the node, a boolean and a large integer for any other.
pub open spec fn takes(ws: Seq<u64>, g: u64, value: JsInput) -> bool {
    match value {
        JsInput::Text(t) => kind_of(g) == 9 && encode_utf8(t@).len() <= cap_of(
            ws,
            off_of(g) as int,
        ),
        JsInput::BigInt { .. } => kind_of(g) == 8,
        JsInput::Boolean(_) => kind_of(g) == 5,
        _ => false,
    }
}

/// A value that the node under the text can take needs no space: it is put there, and the text
/// still leads to that node.
pub proof fn law_set_in_place<M: Memory>(
    node: NodeRef,
    a: String,
    value: JsInput,
    l: &mut M,
    m: &mut M,
    n: &mut M,
    before: Result<u64, ApiError>,
    r: Result<(), ApiError>,
    later: Result<u64, ApiError>,
)
    requires
        on_table(*old(l), node),
        read_handle_gives(node, l, JsKey::Text(a), before),
        before matches Ok(g) && g != H_INVALID && takes(old(l).words(), g, value),
        *old(m) == *final(l),
        set_gives(node, m, JsKey::Text(a), value, r),
        *old(n) == *final(m),
        read_handle_gives(node, n, JsKey::Text(a), later),
        final(n).undisturbed(),
    ensures
        r is Ok,
        later == before,
        room(final(m).words()) == room(old(m).words()),
{
    lemma_read_handle(node, n, JsKey::Text(a), later);
    lemma_set(node, m, JsKey::Text(a), value, r);
    lemma_read_handle(node, l, JsKey::Text(a), before);
    let ws = old(m).words();
    let xs = final(m).words();
    lemma_text_read(ws, node.handle, a);
    lemma_in_place(ws, node.handle, a@, value, r, xs);
    lemma_text_read(xs, node.handle, a);
}

proof fn lemma_in_place(
    ws: Seq<u64>,
    h: u64,
    a: Seq<char>,
    value: JsInput,
    r: Result<(), ApiError>,
    xs: Seq<u64>,
)
    requires
        wf(ws),
        live_table(ws, h),
        value_stored(ws, h, KeyName::Key(a), value, r, xs),
        handle_for(ws, off_of(h) as int, a) != H_INVALID,
        takes(ws, handle_for(ws, off_of(h) as int, a), value),
    ensures
        wf(xs),
        live_table(xs, h),
        r is Ok,
        handle_for(xs, off_of(h) as int, a) == handle_for(ws, off_of(h) as int, a),
        room(xs) == room(ws),
{
    reveal(value_stored);
    let c = off_of(h) as int;
    lemma_on_table(ws, h);
    let v = choose|v: Value| #[trigger]
        stored_as(value, v) && (r, xs) == value_set(ws, h, KeyName::Key(a), v);
    let g = handle_for(ws, c, a);
    lemma_leads_to(ws, c, a);
    lemma_replaceable(ws, g, value, v);
    lemma_slot_from(ws, c, encode_utf8(a), 0, cap_of(ws, c));
    lemma_replaced(ws, c, a, v);
    lemma_rewritten(ws, g, v);
    lemma_same_room(ws, xs, off_of(g) as int);
}

proof fn lemma_replaceable(ws: Seq<u64>, g: u64, value: JsInput, v: Value)
    requires
        wf(ws),
        live(ws, g),
        g != H_INVALID,
        stored_as(value, v),
        takes(ws, g, value),
    ensures
        replaceable(ws, g, v),
        reusable(ws, g, v),
        !v.is_container(),
{
    lemma_node(ws, off_of(g) as int);
}

/// A change of a node is none of the header.
proof fn lemma_same_room(ws: Seq<u64>, xs: Seq<u64>, n: int)
    requires
        wf(ws),
        is_node(ws, n),
        changed_at(ws, xs, n),
    ensures
        room(xs) == room(ws),
{
    lemma_node(ws, n);
    assert(word(xs, 8) == word(ws, 8) && word(xs, 16) == word(ws, 16));
}

// A call that fails changes nothing.

/// What is read of any container under any key, after a failed call on an object or map.
proof fn lemma_failed(
    ws: Seq<u64>,
    xs: Seq<u64>,
    node: NodeRef,
    a: Seq<char>,
    other: NodeRef,
    key: JsKey,
)
    requires
        wf(ws),
        live_table(ws, node.handle),
        others_kept(ws, xs, off_of(node.handle) as int, a, -1),
        key_kept(ws, xs, off_of(node.handle) as int, a),
        live(ws, other.handle),
        container_kind(kind_of(other.handle)),
    ensures
        reads_alike(ws, xs, other.handle, key, H_INVALID),
{
    if elsewhere(node, a, other, key) {
        lemma_reads_alike(ws, xs, node, a, -1, other, key);
    } else {
        let s = key->Text_0;
        lemma_on_table(ws, node.handle);
        assert(live_table(xs, node.handle));
        lemma_text_read(ws, node.handle, s);
        lemma_text_read(xs, node.handle, s);
        lemma_leads_to(ws, off_of(node.handle) as int, a);
    }
}

proof fn lemma_failed_set(
    ws: Seq<u64>,
    r: Result<(), ApiError>,
    xs: Seq<u64>,
    node: NodeRef,
    a: Seq<char>,
    value: JsInput,
    other: NodeRef,
    key: JsKey,
)
    requires
        wf(ws),
        live_table(ws, node.handle),
        value_stored(ws, node.handle, KeyName::Key(a), value, r, xs),
        r is Err,
        live(ws, other.handle),
        container_kind(kind_of(other.handle)),
    ensures
        reads_alike(ws, xs, other.handle, key, H_INVALID),
{
    reveal(value_stored);
    let c = off_of(node.handle) as int;
    lemma_on_table(ws, node.handle);
    let v = choose|v: Value| #[trigger]
        stored_as(value, v) && (r, xs) == value_set(ws, node.handle, KeyName::Key(a), v);
    lemma_scalar_put(ws, c, a, v);
    law_when_put_is_refused(ws, c, a, v);
    lemma_failed(ws, xs, node, a, other, key);
}

proof fn lemma_failed_link(
    ws: Seq<u64>,
    r: Result<(), ApiError>,
    xs: Seq<u64>,
    node: NodeRef,
    a: Seq<char>,
    child: u64,
    other: NodeRef,
    key: JsKey,
)
    requires
        wf(ws),
        live_table(ws, node.handle),
        live(ws, child),
        container_kind(kind_of(child)),
        node_stored(ws, node.handle, KeyName::Key(a), child, r, xs),
        r is Err,
        live(ws, other.handle),
        container_kind(kind_of(other.handle)),
    ensures
        reads_alike(ws, xs, other.handle, key, H_INVALID),
{
    reveal(node_stored);
    lemma_on_table(ws, node.handle);
    law_link_then_get(ws, off_of(node.handle) as int, a, child);
    lemma_failed(ws, xs, node, a, other, key);
}

/// A value that could not be set has changed nothing: every key of every container shows what it
/// showed.
pub proof fn law_failed_set_changes_nothing<M: Memory>(
    node: NodeRef,
    a: String,
    value: JsInput,
    other: NodeRef,
    key: JsKey,
    l: &mut M,
    m: &mut M,
    n: &mut M,
    before: Result<JsOutput, ApiError>,
    r: Result<(), ApiError>,
    later: Result<JsOutput, ApiError>,
)
    requires
        on_table(*old(l), node),
        live(old(l).words(), other.handle),
        container_kind(kind_of(other.handle)),
        get_value_gives(other, l, key, before),
        *old(m) == *final(l),
        set_gives(node, m, JsKey::Text(a), value, r),
        r is Err,
        *old(n) == *final(m),
        get_value_gives(other, n, key, later),
        final(n).undisturbed(),
    ensures
        same_result(before, later),
{
    lemma_get_value(other, n, key, later);
    lemma_set(node, m, JsKey::Text(a), value, r);
    lemma_get_value(other, l, key, before);
    let ws = old(m).words();
    let xs = final(m).words();
    if value !is Other {
        lemma_failed_set(ws, r, xs, node, a@, value, other, key);
    } else {
        lemma_read_live(ws, other.handle, key);
    }
    lemma_same_shown(before->Ok_0, later->Ok_0);
}

/// A container that could not be linked has changed nothing.
pub proof fn law_failed_set_node_changes_nothing<M: Memory>(
    node: NodeRef,
    a: String,
    child: NodeRef,
    other: NodeRef,
    key: JsKey,
    l: &mut M,
    m: &mut M,
    n: &mut M,
    before: Result<JsOutput, ApiError>,
    r: Result<(), ApiError>,
    later: Result<JsOutput, ApiError>,
)
    requires
        on_table(*old(l), node),
        live(old(l).words(), child.handle),
        container_kind(kind_of(child.handle)),
        live(old(l).words(), other.handle),
        container_kind(kind_of(other.handle)),
        get_value_gives(other, l, key, before),
        *old(m) == *final(l),
        set_node_gives(node, m, JsKey::Text(a), child, r),
        r is Err,
        *old(n) == *final(m),
        get_value_gives(other, n, key, later),
        final(n).undisturbed(),
    ensures
        same_result(before, later),
{
    lemma_get_value(other, n, key, later);
    lemma_set_node(node, m, JsKey::Text(a), child, r);
    lemma_get_value(other, l, key, before);
    lemma_failed_link(
        old(m).words(),
        r,
        final(m).words(),
        node,
        a@,
        child.handle,
        other,
        key,
    );
    lemma_same_shown(before->Ok_0, later->Ok_0);
}

// Linking and counting.

proof fn lemma_when_linked(
    ws: Seq<u64>,
    h: u64,
    a: Seq<char>,
    child: u64,
    r: Result<(), ApiError>,
    xs: Seq<u64>,
)
    requires
        wf(ws),
        live_table(ws, h),
        node_stored(ws, h, KeyName::Key(a), child, r, xs),
    ensures
        ({
            let c = off_of(h) as int;
            let n = encode_utf8(a).len();
            &&& handle_for(ws, c, a) != H_INVALID ==> r is Ok
            &&& handle_for(ws, c, a) == H_INVALID ==> {
                &&& !(fits_a_node(n) && node_bytes(n) <= room(ws)) ==> r == Err::<(), ApiError>(
                    ApiError::Graph(GraphError::RegionFull),
                )
                &&& fits_a_node(n) && node_bytes(n) <= room(ws) && count_of(ws, c) == cap_of(ws, c)
                    ==> r == Err::<(), ApiError>(ApiError::Graph(GraphError::ContainerFull))
                &&& fits_a_node(n) && node_bytes(n) <= room(ws) && count_of(ws, c) < cap_of(ws, c)
                    ==> r is Ok
            }
        }),
{
    reveal(node_stored);
    let c = off_of(h) as int;
    lemma_on_table(ws, h);
    lemma_leads_to(ws, c, a);
    lemma_with_scalar(ws, Value::Str(a));
    lemma_free_slot(ws, c);
}

/// When linking a container to a text of an object or map succeeds. A text that is there needs
/// nothing. One that is not there yet needs space for itself, and a free place.
pub proof fn law_when_set_node_succeeds<M: Memory>(
    node: NodeRef,
    a: String,
    child: NodeRef,
    k: &mut M,
    l: &mut M,
    m: &mut M,
    had: Result<bool, ApiError>,
    len: u32,
    r: Result<(), ApiError>,
)
    requires
        on_table(*old(k), node),
        has_gives(node, k, JsKey::Text(a), had),
        *old(l) == *final(k),
        length_gives(node, l, len),
        *old(m) == *final(l),
        set_node_gives(node, m, JsKey::Text(a), child, r),
        final(m).undisturbed(),
    ensures
        had is Ok,
        ({
            let cap = cap_of(old(m).words(), off_of(node.handle) as int);
            let n = encode_utf8(a@).len();
            let enough = fits_a_node(n) && node_bytes(n) <= room(old(m).words());
            &&& had->Ok_0 ==> r is Ok
            &&& !had->Ok_0 && !enough ==> r == Err::<(), ApiError>(
                ApiError::Graph(GraphError::RegionFull),
            )
            &&& !had->Ok_0 && enough && len == cap ==> r == Err::<(), ApiError>(
                ApiError::Graph(GraphError::ContainerFull),
            )
            &&& !had->Ok_0 && enough && len < cap ==> r is Ok
        }),
{
    lemma_set_node(node, m, JsKey::Text(a), child, r);
    lemma_length(node, l, len);
    lemma_has(node, k, JsKey::Text(a), had);
    let ws = old(m).words();
    lemma_on_table(ws, node.handle);
    lemma_text_read(ws, node.handle, a);
    lemma_when_linked(ws, node.handle, a@, child.handle, r, final(m).words());
}

proof fn lemma_when_counted(ws: Seq<u64>, h: u64, a: Seq<char>)
    requires
        wf(ws),
        live_table(ws, h),
    ensures
        ({
            let c = off_of(h) as int;
            let n = encode_utf8(a).len();
            let r = counted(ws, c, a).0;
            &&& handle_for(ws, c, a) == H_INVALID && count_of(ws, c) < cap_of(ws, c) && fits_a_node(
                n,
            ) && node_bytes(n) + node_bytes(8) <= room(ws) ==> r is Ok
            &&& handle_for(ws, c, a) != H_INVALID && node_bytes(8) <= room(ws) ==> r is Ok
            &&& handle_for(ws, c, a) == H_INVALID && (count_of(ws, c) == cap_of(ws, c)
                || !fits_a_node(n) || node_bytes(n) + node_bytes(8) > room(ws)) ==> r is Err
        }),
{
    reveal(counted);
    let c = off_of(h) as int;
    lemma_on_table(ws, h);
    lemma_leads_to(ws, c, a);
    law_when_put_is_refused(ws, c, a, Value::Int(0));
    lemma_scalar_put(ws, c, a, Value::Int(0));
    if slot_of(ws, c, a) is None {
        let w = scalar_put(ws, c, a, Value::Int(0)).1;
        lemma_leads_to(w, c, a);
        if slot_of(w, c, a) is Some {
            lemma_kind_of_value(w, handle_for(w, c, a));
        }
    }
}

/// When an increment succeeds: with a free place and space for the key and a number, if there is
/// nothing under the key; with space for a number, if something else is there.
pub proof fn law_when_increment_succeeds<M: Memory>(
    node: NodeRef,
    a: String,
    k: &mut M,
    l: &mut M,
    m: &mut M,
    had: Result<bool, ApiError>,
    len: u32,
    r: Result<i64, ApiError>,
)
    requires
        on_table(*old(k), node),
        has_gives(node, k, JsKey::Text(a), had),
        *old(l) == *final(k),
        length_gives(node, l, len),
        *old(m) == *final(l),
        increment_gives(node, m, JsKey::Text(a), r),
        final(m).undisturbed(),
    ensures
        had is Ok,
        ({
            let cap = cap_of(old(m).words(), off_of(node.handle) as int);
            let n = encode_utf8(a@).len();
            let left = room(old(m).words());
            &&& !had->Ok_0 ==> (r is Ok <==> len < cap && fits_a_node(n) && node_bytes(n)
                + node_bytes(8) <= left)
            &&& had->Ok_0 && node_bytes(8) <= left ==> r is Ok
        }),
{
    lemma_increment(node, m, JsKey::Text(a), r);
    lemma_length(node, l, len);
    lemma_has(node, k, JsKey::Text(a), had);
    let ws = old(m).words();
    lemma_on_table(ws, node.handle);
    lemma_text_read(ws, node.handle, a);
    lemma_when_counted(ws, node.handle, a@);
}

// Keys and values of the wrong kind.

/// What is wrong with the key, if anything: negative numbers are no indices, objects and maps have
/// texts for keys, arrays have numbers.
pub open spec fn wrong_key(node: NodeRef, key: JsKey) -> Option<ApiError> {
    match key {
        JsKey::Number(n) => if n < 0 {
            Some(ApiError::NegativeIndex)
        } else if node.handle >> 56 != 2 {
            Some(ApiError::TextWanted)
        } else {
            None
        },
        JsKey::Text(_) => if node.handle >> 56 == 2 {
            Some(ApiError::IndexWanted)
        } else {
            None
        },
    }
}

/// The kind of a reference is the topmost byte of its handle.
pub proof fn lemma_kind_byte(h: u64)
    ensures
        kind_of(h) == h >> 56,
{
    assert(h >> 56 < 256 && h >> 56 == h / 0x0100_0000_0000_0000) by (bit_vector);
}

/// The kind that a reference says it has.
pub proof fn law_kind_of_reference(node: NodeRef, kind: u8)
    requires
        call_ensures(NodeRef::kind, (&node,), kind),
    ensures
        kind == node.handle >> 56,
{
    lemma_kind_byte(node.handle);
}

/// Reading under a wrong key gives the error that says so, and changes nothing.
pub proof fn law_wrong_key_is_not_read<M: Memory>(
    node: NodeRef,
    key: JsKey,
    e: ApiError,
    m: &mut M,
    n: &mut M,
    o: &mut M,
    value: Result<JsOutput, ApiError>,
    child: Result<Option<NodeRef>, ApiError>,
    has: Result<bool, ApiError>,
)
    requires
        wrong_key(node, key) == Some(e),
        get_value_gives(node, m, key, value),
        get_node_gives(node, n, key, child),
        has_gives(node, o, key, has),
    ensures
        value == Err::<JsOutput, ApiError>(e),
        child == Err::<Option<NodeRef>, ApiError>(e),
        has == Err::<bool, ApiError>(e),
        *final(m) == *old(m),
        *final(n) == *old(n),
        *final(o) == *old(o),
{
    reveal(get_value_gives);
    reveal(get_node_gives);
    reveal(has_gives);
    lemma_kind_byte(node.handle);
}

/// Setting under a wrong key gives the error that says so, and changes nothing. What is no value
/// cannot be set under any key.
pub proof fn law_wrong_key_is_not_set<M: Memory>(
    node: NodeRef,
    key: JsKey,
    value: JsInput,
    child: NodeRef,
    m: &mut M,
    n: &mut M,
    r: Result<(), ApiError>,
    s: Result<(), ApiError>,
)
    requires
        set_gives(node, m, key, value, r),
        set_node_gives(node, n, key, child, s),
    ensures
        value is Other ==> r == Err::<(), ApiError>(ApiError::NodeToSet) && *final(m) == *old(m),
        value !is Other ==> (wrong_key(node, key) matches Some(e) ==> r == Err::<(), ApiError>(e)
            && *final(m) == *old(m)),
        wrong_key(node, key) matches Some(e) ==> s == Err::<(), ApiError>(e) && *final(n) == *old(
            n,
        ),
{
    reveal(set_gives);
    reveal(set_node_gives);
    lemma_kind_byte(node.handle);
}

/// Only arrays can be appended to, and what is no value cannot be appended.
pub proof fn law_only_arrays_grow<M: Memory>(
    node: NodeRef,
    value: JsInput,
    child: NodeRef,
    m: &mut M,
    n: &mut M,
    r: Result<u32, ApiError>,
    s: Result<u32, ApiError>,
)
    requires
        push_gives(node, m, value, r),
        push_node_gives(node, n, child, s),
    ensures
        node.handle >> 56 != 2 ==> r == Err::<u32, ApiError>(ApiError::NotAnArray) && *final(m)
            == *old(m),
        node.handle >> 56 != 2 ==> s == Err::<u32, ApiError>(ApiError::NotAnArray) && *final(n)
            == *old(n),
        node.handle >> 56 == 2 && value is Other ==> r == Err::<u32, ApiError>(ApiError::NodeToPush)
            && *final(m) == *old(m),
{
    reveal(push_gives);
    reveal(push_node_gives);
    lemma_kind_byte(node.handle);
}

/// A wrong key is neither deleted nor counted up. A number that is no key of an object or map is
/// none that it has: deleting it finds nothing. Only texts name counters.
pub proof fn law_wrong_key_is_not_changed<M: Memory>(
    node: NodeRef,
    key: JsKey,
    m: &mut M,
    n: &mut M,
    gone: Result<bool, ApiError>,
    count: Result<i64, ApiError>,
)
    requires
        delete_gives(node, m, key, gone),
        increment_gives(node, n, key, count),
    ensures
        key matches JsKey::Number(i) ==> i < 0 ==> gone == Err::<bool, ApiError>(
            ApiError::NegativeIndex,
        ) && *final(m) == *old(m) && count == Err::<i64, ApiError>(ApiError::NegativeIndex)
            && *final(n) == *old(n),
        key matches JsKey::Number(i) ==> i >= 0 ==> count == Err::<i64, ApiError>(
            ApiError::CounterByIndex,
        ) && *final(n) == *old(n),
        key is Text && node.handle >> 56 == 2 ==> gone == Err::<bool, ApiError>(
            ApiError::IndexWanted,
        ) && *final(m) == *old(m) && count == Err::<i64, ApiError>(ApiError::IndexWanted)
            && *final(n) == *old(n),
        key matches JsKey::Number(i) ==> i >= 0 && node.handle >> 56 != 2 ==> gone == Ok::<
            bool,
            ApiError,
        >(false) && *final(m) == *old(m),
{
    reveal(delete_gives);
    reveal(increment_gives);
    lemma_kind_byte(node.handle);
}

} // verus!
