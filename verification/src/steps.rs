//! Calls on references, one after the other.
//!
//! `set_gives(node, m, key, value, r)` says that a call of `set` which finds the memory `*old(m)`
//! gives `r` and leaves `*final(m)`; and so for each of the other calls. What the calls promise, as
//! far as it concerns a region that nobody else changes meanwhile, is told here once, for the laws
//! of `usage`, `array_usage`, `limits` and `making`.
use crate::arena::odd;
use crate::graph::texts;
use crate::js::{
    graph_result, key_name, shown, stored_as, ApiError, JsInput, JsKey, JsOutput, KeyName,
};
use crate::layout::{cap_of, count_of, live_table, seq_of, wf};
use crate::memory::Memory;
use crate::node::{value_at, value_locked, with_scalar};
use crate::noderef::{
    fits, handle_read, item_pushed, misfit, name_removed, node_set, undeletable, value_set, NodeRef,
};
use crate::tables::{counted, keys_in};
use crate::value::{container_kind, kind_of, off_of, Value, H_INVALID, KIND_ARRAY};
use crate::words::lower;
use vstd::prelude::*;

verus! {

/// Setting `key` of the node behind `h` to a value gives `r` and leaves `xs`.
#[verifier::opaque]
pub open spec fn value_stored(
    ws: Seq<u64>,
    h: u64,
    key: KeyName,
    value: JsInput,
    r: Result<(), ApiError>,
    xs: Seq<u64>,
) -> bool {
    exists|v: Value| #[trigger] stored_as(value, v) && (r, xs) == value_set(ws, h, key, v)
}

/// Linking the node behind `child` to `key` of the node behind `h` gives `r` and leaves `xs`.
#[verifier::opaque]
pub open spec fn node_stored(
    ws: Seq<u64>,
    h: u64,
    key: KeyName,
    child: u64,
    r: Result<(), ApiError>,
    xs: Seq<u64>,
) -> bool {
    (r, xs) == node_set(ws, h, key, child)
}

/// Appending a value to the array behind `h` gives `r` and leaves `xs`.
#[verifier::opaque]
pub open spec fn value_appended(
    ws: Seq<u64>,
    h: u64,
    value: JsInput,
    r: Result<u32, ApiError>,
    xs: Seq<u64>,
) -> bool {
    exists|v: Value| #[trigger]
        stored_as(value, v) && (r, xs) == match with_scalar(ws, v) {
            (Some(new), w) => item_pushed(w, h, new),
            (None, w) => (Err(ApiError::CapacityExceeded), w),
        }
}

/// Appending the node behind `child` to the array behind `h` gives `r` and leaves `xs`.
#[verifier::opaque]
pub open spec fn node_appended(
    ws: Seq<u64>,
    h: u64,
    child: u64,
    r: Result<u32, ApiError>,
    xs: Seq<u64>,
) -> bool {
    (r, xs) == item_pushed(ws, h, child)
}

/// Deleting `key` of the node behind `h` gives `r` and leaves `xs`.
#[verifier::opaque]
pub open spec fn removed(
    ws: Seq<u64>,
    h: u64,
    key: KeyName,
    r: Result<bool, ApiError>,
    xs: Seq<u64>,
) -> bool {
    (r, xs) == name_removed(ws, h, key)
}

/// A call of `length` gives `r`.
#[verifier::opaque]
pub open spec fn length_gives<M: Memory>(
    node: NodeRef,
    m: &mut M,
    r: u32,
) -> bool {
    call_ensures(NodeRef::length::<M>, (&node, m), r)
}

pub proof fn lemma_length<M: Memory>(
    node: NodeRef,
    m: &mut M,
    r: u32,
)
    requires
        length_gives(node, m, r),
        final(m).undisturbed(),
    ensures
        old(m).undisturbed(),
        final(m).words() == old(m).words(),
        r == lower(count_of(old(m).words(), off_of(node.handle) as int)),
{
    reveal(length_gives);
}

/// A call of `read_handle` gives `r`.
#[verifier::opaque]
pub open spec fn read_handle_gives<M: Memory>(
    node: NodeRef,
    m: &mut M,
    key: JsKey,
    r: Result<u64, ApiError>,
) -> bool {
    call_ensures(NodeRef::read_handle::<M>, (&node, m, key), r)
}

pub proof fn lemma_read_handle<M: Memory>(
    node: NodeRef,
    m: &mut M,
    key: JsKey,
    r: Result<u64, ApiError>,
)
    requires
        read_handle_gives(node, m, key, r),
        final(m).undisturbed(),
    ensures
        old(m).undisturbed(),
        final(m).words() == old(m).words(),
        r == handle_read(old(m).words(), node.handle, key),
{
    reveal(read_handle_gives);
}

/// A call of `get_node` gives `r`.
#[verifier::opaque]
pub open spec fn get_node_gives<M: Memory>(
    node: NodeRef,
    m: &mut M,
    key: JsKey,
    r: Result<Option<NodeRef>, ApiError>,
) -> bool {
    call_ensures(NodeRef::get_node::<M>, (&node, m, key), r)
}

pub proof fn lemma_get_node<M: Memory>(
    node: NodeRef,
    m: &mut M,
    key: JsKey,
    r: Result<Option<NodeRef>, ApiError>,
)
    requires
        get_node_gives(node, m, key, r),
        final(m).undisturbed(),
    ensures
        old(m).undisturbed(),
        final(m).words() == old(m).words(),
        handle_read(old(m).words(), node.handle, key) matches Ok(h) ==> (r matches Ok(got)
            && if container_kind(kind_of(h)) {
            got matches Some(g) && g.base == node.base && g.handle == h
        } else {
            got is None
        }),
        handle_read(old(m).words(), node.handle, key) matches Err(e) ==> (r matches Err(f) && f
            == e),
{
    reveal(get_node_gives);
}

/// A call of `get_value` gives `r`.
#[verifier::opaque]
pub open spec fn get_value_gives<M: Memory>(
    node: NodeRef,
    m: &mut M,
    key: JsKey,
    r: Result<JsOutput, ApiError>,
) -> bool {
    call_ensures(NodeRef::get_value::<M>, (&node, m, key), r)
}

pub proof fn lemma_get_value<M: Memory>(
    node: NodeRef,
    m: &mut M,
    key: JsKey,
    r: Result<JsOutput, ApiError>,
)
    requires
        get_value_gives(node, m, key, r),
        final(m).undisturbed(),
    ensures
        old(m).undisturbed(),
        final(m).words() == old(m).words(),
        handle_read(old(m).words(), node.handle, key) matches Ok(h) ==> !value_locked(
            old(m).words(),
            h,
        ) ==> (r matches Ok(v) && v@ == shown(value_at(old(m).words(), h))),
        handle_read(old(m).words(), node.handle, key) matches Err(e) ==> (r matches Err(f) && f
            == e),
{
    reveal(get_value_gives);
}

/// A call of `has` gives `r`.
#[verifier::opaque]
pub open spec fn has_gives<M: Memory>(
    node: NodeRef,
    m: &mut M,
    key: JsKey,
    r: Result<bool, ApiError>,
) -> bool {
    call_ensures(NodeRef::has::<M>, (&node, m, key), r)
}

pub proof fn lemma_has<M: Memory>(
    node: NodeRef,
    m: &mut M,
    key: JsKey,
    r: Result<bool, ApiError>,
)
    requires
        has_gives(node, m, key, r),
        final(m).undisturbed(),
    ensures
        old(m).undisturbed(),
        final(m).words() == old(m).words(),
        handle_read(old(m).words(), node.handle, key) matches Ok(h) ==> r == Ok::<bool, ApiError>(
            h != H_INVALID,
        ),
        handle_read(old(m).words(), node.handle, key) matches Err(e) ==> r == Err::<
            bool,
            ApiError,
        >(e),
{
    reveal(has_gives);
}

/// A call of `keys` gives `r`.
#[verifier::opaque]
pub open spec fn keys_gives<M: Memory>(
    node: NodeRef,
    m: &mut M,
    r: Result<Vec<String>, ApiError>,
) -> bool {
    call_ensures(NodeRef::keys::<M>, (&node, m), r)
}

pub proof fn lemma_keys<M: Memory>(
    node: NodeRef,
    m: &mut M,
    r: Result<Vec<String>, ApiError>,
)
    requires
        keys_gives(node, m, r),
        final(m).undisturbed(),
    ensures
        old(m).undisturbed(),
        final(m).words() == old(m).words(),
        r is Ok == !odd(seq_of(old(m).words(), off_of(node.handle) as int)),
        r matches Ok(list) ==> texts(list@) == keys_in(
            old(m).words(),
            off_of(node.handle) as int,
            cap_of(old(m).words(), off_of(node.handle) as int),
        ),
{
    reveal(keys_gives);
}

/// A call of `set` gives `r`.
#[verifier::opaque]
pub open spec fn set_gives<M: Memory>(
    node: NodeRef,
    m: &mut M,
    key: JsKey,
    value: JsInput,
    r: Result<(), ApiError>,
) -> bool {
    call_ensures(NodeRef::set::<M>, (&node, m, key, value), r)
}

pub proof fn lemma_set<M: Memory>(
    node: NodeRef,
    m: &mut M,
    key: JsKey,
    value: JsInput,
    r: Result<(), ApiError>,
)
    requires
        set_gives(node, m, key, value, r),
        final(m).undisturbed(),
    ensures
        old(m).undisturbed(),
        value is Other ==> r == Err::<(), ApiError>(ApiError::NodeToSet) && final(m).words() == old(
            m,
        ).words(),
        value !is Other ==> (misfit(node.handle, key) matches Some(e) ==> r == Err::<(), ApiError>(
            e,
        ) && final(m).words() == old(m).words()),
        value !is Other ==> (key_name(key) matches Ok(name) ==> fits(
            old(m).words(),
            node.handle,
            name,
        ) ==> value_stored(old(m).words(), node.handle, name, value, r, final(m).words())),
{
    reveal(set_gives);
    reveal(value_stored);
}

/// A call of `set_node` gives `r`.
#[verifier::opaque]
pub open spec fn set_node_gives<M: Memory>(
    node: NodeRef,
    m: &mut M,
    key: JsKey,
    child: NodeRef,
    r: Result<(), ApiError>,
) -> bool {
    call_ensures(NodeRef::set_node::<M>, (&node, m, key, &child), r)
}

pub proof fn lemma_set_node<M: Memory>(
    node: NodeRef,
    m: &mut M,
    key: JsKey,
    child: NodeRef,
    r: Result<(), ApiError>,
)
    requires
        set_node_gives(node, m, key, child, r),
        final(m).undisturbed(),
    ensures
        old(m).undisturbed(),
        misfit(node.handle, key) matches Some(e) ==> r == Err::<(), ApiError>(e) && final(m).words()
            == old(m).words(),
        key_name(key) matches Ok(name) ==> fits(old(m).words(), node.handle, name) ==> node_stored(
            old(m).words(),
            node.handle,
            name,
            child.handle,
            r,
            final(m).words(),
        ),
{
    reveal(set_node_gives);
    reveal(node_stored);
}

/// A call of `push` gives `r`.
#[verifier::opaque]
pub open spec fn push_gives<M: Memory>(
    node: NodeRef,
    m: &mut M,
    value: JsInput,
    r: Result<u32, ApiError>,
) -> bool {
    call_ensures(NodeRef::push::<M>, (&node, m, value), r)
}

pub proof fn lemma_push<M: Memory>(
    node: NodeRef,
    m: &mut M,
    value: JsInput,
    r: Result<u32, ApiError>,
)
    requires
        push_gives(node, m, value, r),
        final(m).undisturbed(),
    ensures
        old(m).undisturbed(),
        kind_of(node.handle) != KIND_ARRAY ==> r == Err::<u32, ApiError>(ApiError::NotAnArray)
            && final(m).words() == old(m).words(),
        kind_of(node.handle) == KIND_ARRAY && value is Other ==> r == Err::<u32, ApiError>(
            ApiError::NodeToPush,
        ) && final(m).words() == old(m).words(),
        kind_of(node.handle) == KIND_ARRAY && value !is Other ==> value_appended(
            old(m).words(),
            node.handle,
            value,
            r,
            final(m).words(),
        ),
{
    reveal(push_gives);
    reveal(value_appended);
}

/// A call of `push_node` gives `r`.
#[verifier::opaque]
pub open spec fn push_node_gives<M: Memory>(
    node: NodeRef,
    m: &mut M,
    child: NodeRef,
    r: Result<u32, ApiError>,
) -> bool {
    call_ensures(NodeRef::push_node::<M>, (&node, m, &child), r)
}

pub proof fn lemma_push_node<M: Memory>(
    node: NodeRef,
    m: &mut M,
    child: NodeRef,
    r: Result<u32, ApiError>,
)
    requires
        push_node_gives(node, m, child, r),
        final(m).undisturbed(),
    ensures
        old(m).undisturbed(),
        kind_of(node.handle) != KIND_ARRAY ==> r == Err::<u32, ApiError>(ApiError::NotAnArray)
            && final(m).words() == old(m).words(),
        kind_of(node.handle) == KIND_ARRAY ==> node_appended(
            old(m).words(),
            node.handle,
            child.handle,
            r,
            final(m).words(),
        ),
{
    reveal(push_node_gives);
    reveal(node_appended);
}

/// A call of `increment` gives `r`.
#[verifier::opaque]
pub open spec fn increment_gives<M: Memory>(
    node: NodeRef,
    m: &mut M,
    key: JsKey,
    r: Result<i64, ApiError>,
) -> bool {
    call_ensures(NodeRef::increment::<M>, (&node, m, key), r)
}

pub proof fn lemma_increment<M: Memory>(
    node: NodeRef,
    m: &mut M,
    key: JsKey,
    r: Result<i64, ApiError>,
)
    requires
        increment_gives(node, m, key, r),
        final(m).undisturbed(),
    ensures
        old(m).undisturbed(),
        key_name(key) matches Err(e) ==> r == Err::<i64, ApiError>(e) && final(m).words() == old(
            m,
        ).words(),
        key_name(key) matches Ok(KeyName::Index(_)) ==> r == Err::<i64, ApiError>(
            ApiError::CounterByIndex,
        ) && final(m).words() == old(m).words(),
        key_name(key) is Ok && key_name(key)->Ok_0 is Key && kind_of(node.handle) == KIND_ARRAY
            ==> r == Err::<i64, ApiError>(ApiError::IndexWanted) && final(m).words() == old(
            m,
        ).words(),
        key_name(key) matches Ok(KeyName::Key(s)) ==> wf(old(m).words()) && live_table(
            old(m).words(),
            node.handle,
        ) ==> r == graph_result(counted(old(m).words(), off_of(node.handle) as int, s).0)
            && final(m).words() == counted(old(m).words(), off_of(node.handle) as int, s).1,
{
    reveal(increment_gives);
}

/// A call of `delete` gives `r`.
#[verifier::opaque]
pub open spec fn delete_gives<M: Memory>(
    node: NodeRef,
    m: &mut M,
    key: JsKey,
    r: Result<bool, ApiError>,
) -> bool {
    call_ensures(NodeRef::delete::<M>, (&node, m, key), r)
}

pub proof fn lemma_delete<M: Memory>(
    node: NodeRef,
    m: &mut M,
    key: JsKey,
    r: Result<bool, ApiError>,
)
    requires
        delete_gives(node, m, key, r),
        final(m).undisturbed(),
    ensures
        old(m).undisturbed(),
        undeletable(node.handle, key) matches Some(e) ==> r == Err::<bool, ApiError>(e)
            && final(m).words() == old(m).words(),
        key_name(key) matches Ok(name) ==> fits(old(m).words(), node.handle, name) ==> removed(
            old(m).words(),
            node.handle,
            name,
            r,
            final(m).words(),
        ),
{
    reveal(delete_gives);
    reveal(removed);
}

} // verus!
