//! The operations on the graph, call after call.
//!
//! What references do for their users, these do for handles. The calls are on a region that is in
//! order and that nobody else changes meanwhile.
use crate::arena::region_header;
use crate::arrays::{delete_index, push, put_index};
use crate::counters::increment_counter;
use crate::effects::lemma_scalar_put;
use crate::exchange::{read_back, same_value};
use crate::frames::lemma_appended_frame;
use crate::graph::{
    create_array, create_map, create_object, find_key, get_index, get_key, has_key, keys_of, length,
    read_index_handle, read_key_handle, rval, texts,
};
use crate::js::ApiError;
use crate::laws::{
    law_delete, law_delete_index, law_keys_are_listed, law_new_container, law_push,
    law_put_index_then_get, law_put_value_then_get,
};
use crate::layout::{
    cap_of, count_of, lemma_node, lemma_not_locked, lemma_with_scalar, live, live_list, live_table,
    wf,
};
use crate::limits::{lemma_kind_byte, room};
use crate::lists::item_fits;
use crate::making::{container_bytes, places};
use crate::memory::Memory;
use crate::mutation::{delete_key, put_key_handle, put_key_scalar, put_key_value, root_handle};
use crate::node::{
    handle_to_rval, new_scalar_node, unlocked, value_at, value_locked, with_scalar, NODE_HDR,
};
use crate::noderef::scalar_to_handle;
use crate::root::lemma_rooted;
use crate::tables::{
    counted, handle_for, handle_put, item_for, item_put, item_removed, key_deleted, keys_in, pushed,
    rooted, scalar_put, slot_of, value_put,
};
use crate::usage::{lemma_count, lemma_leads_to, lemma_listed, lemma_on_table, lists};
use crate::value::{container_kind, kind_of, off_of, GraphError, RVal, Scalar, Value};
use crate::words::lower;
use vstd::prelude::*;

verus! {

/// Setting `key` of the object or map at `c` to the scalar `v` gives `r` and leaves `xs`.
#[verifier::opaque]
pub open spec fn scalar_kept(
    ws: Seq<u64>,
    c: int,
    key: Seq<char>,
    v: Value,
    r: Result<(), GraphError>,
    xs: Seq<u64>,
) -> bool {
    (r, xs) == scalar_put(ws, c, key, v)
}

/// Linking the node behind `child` to `key` of the object or map at `c` gives `r` and leaves `xs`.
#[verifier::opaque]
pub open spec fn handle_kept(
    ws: Seq<u64>,
    c: int,
    key: Seq<char>,
    child: u64,
    r: Result<(), GraphError>,
    xs: Seq<u64>,
) -> bool {
    (r, xs) == handle_put(ws, c, key, child)
}

/// Setting `key` of the object or map at `c` to the value behind `h` gives `r` and leaves `xs`.
#[verifier::opaque]
pub open spec fn value_kept(
    ws: Seq<u64>,
    c: int,
    key: Seq<char>,
    h: u64,
    r: Result<(), GraphError>,
    xs: Seq<u64>,
) -> bool {
    (r, xs) == value_put(ws, c, key, h)
}

/// Creating a node for the scalar `v` gives `r` and leaves `xs`.
#[verifier::opaque]
pub open spec fn scalar_made(ws: Seq<u64>, v: Value, r: Option<u64>, xs: Seq<u64>) -> bool {
    (r, xs) == with_scalar(ws, v)
}

/// A call of `get_key` gives `r`.
#[verifier::opaque]
pub open spec fn get_key_gives<M: Memory>(
    m: &mut M,
    h: u64,
    key: &str,
    r: Result<RVal, GraphError>,
) -> bool {
    call_ensures(get_key::<M>, (m, h, key), r)
}

proof fn lemma_get_key<M: Memory>(
    m: &mut M,
    h: u64,
    key: &str,
    r: Result<RVal, GraphError>,
)
    requires
        get_key_gives(m, h, key, r),
        final(m).undisturbed(),
    ensures
        old(m).undisturbed(),
        final(m).words() == old(m).words(),
        wf(old(m).words()) && live_table(old(m).words(), h) ==> (r matches Ok(v) && v@ == value_at(
            old(m).words(),
            handle_for(old(m).words(), off_of(h) as int, key@),
        )),
{
    reveal(get_key_gives);
}

/// A call of `has_key` gives `r`.
#[verifier::opaque]
pub open spec fn has_key_gives<M: Memory>(
    m: &mut M,
    h: u64,
    key: &str,
    r: Result<bool, GraphError>,
) -> bool {
    call_ensures(has_key::<M>, (m, h, key), r)
}

proof fn lemma_has_key<M: Memory>(
    m: &mut M,
    h: u64,
    key: &str,
    r: Result<bool, GraphError>,
)
    requires
        has_key_gives(m, h, key, r),
        final(m).undisturbed(),
    ensures
        old(m).undisturbed(),
        final(m).words() == old(m).words(),
        wf(old(m).words()) && live_table(old(m).words(), h) ==> r == Ok::<bool, GraphError>(
            slot_of(old(m).words(), off_of(h) as int, key@) is Some,
        ),
{
    reveal(has_key_gives);
}

/// A call of `read_key_handle` gives `r`.
#[verifier::opaque]
pub open spec fn read_key_handle_gives<M: Memory>(
    m: &mut M,
    h: u64,
    key: &str,
    r: Result<u64, GraphError>,
) -> bool {
    call_ensures(read_key_handle::<M>, (m, h, key), r)
}

proof fn lemma_read_key_handle<M: Memory>(
    m: &mut M,
    h: u64,
    key: &str,
    r: Result<u64, GraphError>,
)
    requires
        read_key_handle_gives(m, h, key, r),
        final(m).undisturbed(),
    ensures
        old(m).undisturbed(),
        final(m).words() == old(m).words(),
        wf(old(m).words()) && live_table(old(m).words(), h) ==> r == Ok::<u64, GraphError>(
            handle_for(old(m).words(), off_of(h) as int, key@),
        ),
{
    reveal(read_key_handle_gives);
}

/// A call of `read_index_handle` gives `r`.
#[verifier::opaque]
pub open spec fn read_index_handle_gives<M: Memory>(
    m: &mut M,
    h: u64,
    i: usize,
    r: Result<u64, GraphError>,
) -> bool {
    call_ensures(read_index_handle::<M>, (m, h, i), r)
}

proof fn lemma_read_index_handle<M: Memory>(
    m: &mut M,
    h: u64,
    i: usize,
    r: Result<u64, GraphError>,
)
    requires
        read_index_handle_gives(m, h, i, r),
        final(m).undisturbed(),
    ensures
        old(m).undisturbed(),
        final(m).words() == old(m).words(),
        wf(old(m).words()) && live_list(old(m).words(), h) ==> r == Ok::<u64, GraphError>(
            item_for(old(m).words(), off_of(h) as int, i as int),
        ),
{
    reveal(read_index_handle_gives);
}

/// A call of `get_index` gives `r`.
#[verifier::opaque]
pub open spec fn get_index_gives<M: Memory>(
    m: &mut M,
    h: u64,
    i: usize,
    r: Result<RVal, GraphError>,
) -> bool {
    call_ensures(get_index::<M>, (m, h, i), r)
}

proof fn lemma_get_index<M: Memory>(
    m: &mut M,
    h: u64,
    i: usize,
    r: Result<RVal, GraphError>,
)
    requires
        get_index_gives(m, h, i, r),
        final(m).undisturbed(),
    ensures
        old(m).undisturbed(),
        final(m).words() == old(m).words(),
        wf(old(m).words()) && live_list(old(m).words(), h) ==> (r matches Ok(v) && v@ == value_at(
            old(m).words(),
            item_for(old(m).words(), off_of(h) as int, i as int),
        )),
{
    reveal(get_index_gives);
}

/// A call of `rval` gives `r`.
#[verifier::opaque]
pub open spec fn rval_gives<M: Memory>(
    m: &mut M,
    h: u64,
    r: Result<RVal, GraphError>,
) -> bool {
    call_ensures(rval::<M>, (m, h), r)
}

proof fn lemma_rval<M: Memory>(
    m: &mut M,
    h: u64,
    r: Result<RVal, GraphError>,
)
    requires
        rval_gives(m, h, r),
        final(m).undisturbed(),
    ensures
        old(m).undisturbed(),
        final(m).words() == old(m).words(),
        !value_locked(old(m).words(), h) ==> (r matches Ok(v) && v@ == value_at(old(m).words(), h)),
{
    reveal(rval_gives);
}

/// A call of `put_key_scalar` gives `r`.
#[verifier::opaque]
pub open spec fn put_key_scalar_gives<M: Memory>(
    m: &mut M,
    h: u64,
    key: &str,
    s: Scalar,
    r: Result<(), GraphError>,
) -> bool {
    call_ensures(put_key_scalar::<M>, (m, h, key, &s), r)
}

proof fn lemma_put_key_scalar<M: Memory>(
    m: &mut M,
    h: u64,
    key: &str,
    s: Scalar,
    r: Result<(), GraphError>,
)
    requires
        put_key_scalar_gives(m, h, key, s, r),
        final(m).undisturbed(),
    ensures
        old(m).undisturbed(),
        wf(old(m).words()) && live_table(old(m).words(), h) ==> scalar_kept(
            old(m).words(),
            off_of(h) as int,
            key@,
            s@,
            r,
            final(m).words(),
        ),
{
    reveal(put_key_scalar_gives);
    reveal(scalar_kept);
}

/// A call of `put_key_handle` gives `r`.
#[verifier::opaque]
pub open spec fn put_key_handle_gives<M: Memory>(
    m: &mut M,
    h: u64,
    key: &str,
    child: u64,
    r: Result<(), GraphError>,
) -> bool {
    call_ensures(put_key_handle::<M>, (m, h, key, child), r)
}

proof fn lemma_put_key_handle<M: Memory>(
    m: &mut M,
    h: u64,
    key: &str,
    child: u64,
    r: Result<(), GraphError>,
)
    requires
        put_key_handle_gives(m, h, key, child, r),
        final(m).undisturbed(),
    ensures
        old(m).undisturbed(),
        wf(old(m).words()) && live_table(old(m).words(), h) ==> handle_kept(
            old(m).words(),
            off_of(h) as int,
            key@,
            child,
            r,
            final(m).words(),
        ),
{
    reveal(put_key_handle_gives);
    reveal(handle_kept);
}

/// A call of `put_key_value` gives `r`.
#[verifier::opaque]
pub open spec fn put_key_value_gives<M: Memory>(
    m: &mut M,
    h: u64,
    key: &str,
    value: u64,
    r: Result<(), GraphError>,
) -> bool {
    call_ensures(put_key_value::<M>, (m, h, key, value), r)
}

proof fn lemma_put_key_value<M: Memory>(
    m: &mut M,
    h: u64,
    key: &str,
    value: u64,
    r: Result<(), GraphError>,
)
    requires
        put_key_value_gives(m, h, key, value, r),
        final(m).undisturbed(),
    ensures
        old(m).undisturbed(),
        wf(old(m).words()) && live_table(old(m).words(), h) && !value_locked(old(m).words(), value)
            ==> value_kept(
            old(m).words(),
            off_of(h) as int,
            key@,
            value,
            r,
            final(m).words(),
        ),
{
    reveal(put_key_value_gives);
    reveal(value_kept);
}

/// A call of `new_scalar_node` gives `r`.
#[verifier::opaque]
pub open spec fn new_scalar_node_gives<M: Memory>(
    m: &mut M,
    s: Scalar,
    r: Option<u64>,
) -> bool {
    call_ensures(new_scalar_node::<M>, (m, &s), r)
}

proof fn lemma_new_scalar_node<M: Memory>(
    m: &mut M,
    s: Scalar,
    r: Option<u64>,
)
    requires
        new_scalar_node_gives(m, s, r),
        final(m).undisturbed(),
    ensures
        old(m).undisturbed(),
        scalar_made(old(m).words(), s@, r, final(m).words()),
{
    reveal(new_scalar_node_gives);
    reveal(scalar_made);
}

/// A call of `delete_key` gives `r`.
#[verifier::opaque]
pub open spec fn delete_key_gives<M: Memory>(
    m: &mut M,
    h: u64,
    key: &str,
    r: Result<bool, GraphError>,
) -> bool {
    call_ensures(delete_key::<M>, (m, h, key), r)
}

proof fn lemma_delete_key<M: Memory>(
    m: &mut M,
    h: u64,
    key: &str,
    r: Result<bool, GraphError>,
)
    requires
        delete_key_gives(m, h, key, r),
        final(m).undisturbed(),
    ensures
        old(m).undisturbed(),
        wf(old(m).words()) && live_table(old(m).words(), h) ==> r == Ok::<bool, GraphError>(
            key_deleted(old(m).words(), off_of(h) as int, key@).0,
        ) && final(m).words() == key_deleted(old(m).words(), off_of(h) as int, key@).1,
{
    reveal(delete_key_gives);
}

/// A call of `increment_counter` gives `r`.
#[verifier::opaque]
pub open spec fn increment_counter_gives<M: Memory>(
    m: &mut M,
    h: u64,
    key: &str,
    r: Result<i64, GraphError>,
) -> bool {
    call_ensures(increment_counter::<M>, (m, h, key), r)
}

proof fn lemma_increment_counter<M: Memory>(
    m: &mut M,
    h: u64,
    key: &str,
    r: Result<i64, GraphError>,
)
    requires
        increment_counter_gives(m, h, key, r),
        final(m).undisturbed(),
    ensures
        old(m).undisturbed(),
        wf(old(m).words()) && live_table(old(m).words(), h) ==> r == counted(
            old(m).words(),
            off_of(h) as int,
            key@,
        ).0 && final(m).words() == counted(old(m).words(), off_of(h) as int, key@).1,
{
    reveal(increment_counter_gives);
}

/// A call of `keys_of` gives `r`.
#[verifier::opaque]
pub open spec fn keys_of_gives<M: Memory>(
    m: &mut M,
    h: u64,
    r: Result<Vec<String>, GraphError>,
) -> bool {
    call_ensures(keys_of::<M>, (m, h), r)
}

proof fn lemma_keys_of<M: Memory>(
    m: &mut M,
    h: u64,
    r: Result<Vec<String>, GraphError>,
)
    requires
        keys_of_gives(m, h, r),
        final(m).undisturbed(),
    ensures
        old(m).undisturbed(),
        final(m).words() == old(m).words(),
        wf(old(m).words()) && live_table(old(m).words(), h) ==> (r matches Ok(list) && texts(list@)
            == keys_in(
            old(m).words(),
            off_of(h) as int,
            cap_of(old(m).words(), off_of(h) as int),
        )),
{
    reveal(keys_of_gives);
}

/// A call of `length` gives `r`.
#[verifier::opaque]
pub open spec fn length_gives<M: Memory>(
    m: &mut M,
    h: u64,
    r: Result<u32, GraphError>,
) -> bool {
    call_ensures(length::<M>, (m, h), r)
}

proof fn lemma_length<M: Memory>(
    m: &mut M,
    h: u64,
    r: Result<u32, GraphError>,
)
    requires
        length_gives(m, h, r),
        final(m).undisturbed(),
    ensures
        old(m).undisturbed(),
        final(m).words() == old(m).words(),
        r == Ok::<u32, GraphError>(lower(count_of(old(m).words(), off_of(h) as int))),
{
    reveal(length_gives);
}

/// A call of `put_index` gives `r`.
#[verifier::opaque]
pub open spec fn put_index_gives<M: Memory>(
    m: &mut M,
    h: u64,
    i: usize,
    v: u64,
    r: Result<(), GraphError>,
) -> bool {
    call_ensures(put_index::<M>, (m, h, i, v), r)
}

proof fn lemma_put_index<M: Memory>(
    m: &mut M,
    h: u64,
    i: usize,
    v: u64,
    r: Result<(), GraphError>,
)
    requires
        put_index_gives(m, h, i, v, r),
        final(m).undisturbed(),
    ensures
        old(m).undisturbed(),
        unlocked(old(m).words(), off_of(h) as int) ==> (r, final(m).words()) == if i >= cap_of(
            old(m).words(),
            off_of(h) as int,
        ) {
            (Err(GraphError::ArrayFull), old(m).words())
        } else {
            (Ok(()), item_put(old(m).words(), off_of(h) as int, i as int, v))
        },
{
    reveal(put_index_gives);
}

/// A call of `push` gives `r`.
#[verifier::opaque]
pub open spec fn push_gives<M: Memory>(
    m: &mut M,
    h: u64,
    v: u64,
    r: Result<u32, GraphError>,
) -> bool {
    call_ensures(push::<M>, (m, h, v), r)
}

proof fn lemma_push<M: Memory>(
    m: &mut M,
    h: u64,
    v: u64,
    r: Result<u32, GraphError>,
)
    requires
        push_gives(m, h, v, r),
        final(m).undisturbed(),
    ensures
        old(m).undisturbed(),
        unlocked(old(m).words(), off_of(h) as int) ==> (r, final(m).words()) == pushed(
            old(m).words(),
            off_of(h) as int,
            v,
        ),
{
    reveal(push_gives);
}

/// A call of `delete_index` gives `r`.
#[verifier::opaque]
pub open spec fn delete_index_gives<M: Memory>(
    m: &mut M,
    h: u64,
    i: usize,
    r: Result<bool, GraphError>,
) -> bool {
    call_ensures(delete_index::<M>, (m, h, i), r)
}

proof fn lemma_delete_index<M: Memory>(
    m: &mut M,
    h: u64,
    i: usize,
    r: Result<bool, GraphError>,
)
    requires
        delete_index_gives(m, h, i, r),
        final(m).undisturbed(),
    ensures
        old(m).undisturbed(),
        unlocked(old(m).words(), off_of(h) as int) ==> (r, final(m).words()) == if i >= cap_of(
            old(m).words(),
            off_of(h) as int,
        ) {
            (Err(GraphError::ArrayFull), old(m).words())
        } else {
            (Ok(true), item_removed(old(m).words(), off_of(h) as int, i as int))
        },
{
    reveal(delete_index_gives);
}

// Reading.

/// What is there under a key is what is behind the handle that is there under it; a key is there if
/// and only if it leads somewhere.
pub proof fn law_key_leads_to_value<M: Memory>(
    h: u64,
    key: &str,
    g: u64,
    m: &mut M,
    n: &mut M,
    o: &mut M,
    p: &mut M,
    there: Result<bool, GraphError>,
    leads: Result<u64, GraphError>,
    got: Result<RVal, GraphError>,
    value: Result<RVal, GraphError>,
)
    requires
        wf(old(m).words()),
        live_table(old(m).words(), h),
        has_key_gives(m, h, key, there),
        *old(n) == *final(m),
        read_key_handle_gives(n, h, key, leads),
        *old(o) == *final(n),
        get_key_gives(o, h, key, got),
        *old(p) == *final(o),
        leads == Ok::<u64, GraphError>(g),
        rval_gives(p, g, value),
        final(p).undisturbed(),
    ensures
        there == Ok::<bool, GraphError>(g != 0),
        got is Ok,
        value is Ok,
        same_value(got->Ok_0, value->Ok_0),
        g == 0 ==> got->Ok_0 is Null,
{
    lemma_rval(p, g, value);
    lemma_get_key(o, h, key, got);
    lemma_read_key_handle(n, h, key, leads);
    lemma_has_key(m, h, key, there);
    let ws = old(m).words();
    lemma_on_table(ws, h);
    lemma_leads_to(ws, off_of(h) as int, key@);
    lemma_alike(got->Ok_0, value->Ok_0);
}

/// What is there at an index is what is behind the handle that is there at it.
pub proof fn law_index_leads_to_value<M: Memory>(
    h: u64,
    i: usize,
    g: u64,
    n: &mut M,
    o: &mut M,
    p: &mut M,
    leads: Result<u64, GraphError>,
    got: Result<RVal, GraphError>,
    value: Result<RVal, GraphError>,
)
    requires
        wf(old(n).words()),
        live_list(old(n).words(), h),
        read_index_handle_gives(n, h, i, leads),
        *old(o) == *final(n),
        get_index_gives(o, h, i, got),
        *old(p) == *final(o),
        leads == Ok::<u64, GraphError>(g),
        rval_gives(p, g, value),
        final(p).undisturbed(),
    ensures
        got is Ok,
        value is Ok,
        same_value(got->Ok_0, value->Ok_0),
        g == 0 ==> got->Ok_0 is Null,
{
    lemma_rval(p, g, value);
    lemma_get_index(o, h, i, got);
    lemma_read_index_handle(n, h, i, leads);
    let ws = old(n).words();
    if g != 0 {
        crate::layout::lemma_node(ws, off_of(h) as int);
        assert(crate::layout::item_at(ws, off_of(h) as int, i as int) == g);
        lemma_not_locked(ws, g);
    }
    lemma_alike(got->Ok_0, value->Ok_0);
}

/// Values with one meaning are the same.
proof fn lemma_alike(a: RVal, b: RVal)
    ensures
        a@ == b@ ==> same_value(a, b),
{
}

proof fn lemma_reads_back(s: Scalar, v: RVal)
    ensures
        s@ == v@ ==> read_back(s, v),
{
}

// Writing.

/// A scalar that has been stored under a key is what is there under it.
pub proof fn law_put_scalar_then_get<M: Memory>(
    h: u64,
    key: &str,
    s: Scalar,
    m: &mut M,
    n: &mut M,
    r: Result<(), GraphError>,
    got: Result<RVal, GraphError>,
)
    requires
        wf(old(m).words()),
        live_table(old(m).words(), h),
        put_key_scalar_gives(m, h, key, s, r),
        r is Ok,
        *old(n) == *final(m),
        get_key_gives(n, h, key, got),
        final(n).undisturbed(),
    ensures
        got matches Ok(v) && read_back(s, v),
{
    lemma_get_key(n, h, key, got);
    lemma_put_key_scalar(m, h, key, s, r);
    lemma_scalar_there(old(m).words(), h, key@, s@, r, final(m).words());
    lemma_reads_back(s, got->Ok_0);
}

proof fn lemma_scalar_there(
    ws: Seq<u64>,
    h: u64,
    key: Seq<char>,
    v: Value,
    r: Result<(), GraphError>,
    xs: Seq<u64>,
)
    requires
        wf(ws),
        live_table(ws, h),
        !v.is_container(),
        scalar_kept(ws, off_of(h) as int, key, v, r, xs),
        r is Ok,
    ensures
        wf(xs),
        live_table(xs, h),
        value_at(xs, handle_for(xs, off_of(h) as int, key)) == v,
{
    reveal(scalar_kept);
    lemma_on_table(ws, h);
    lemma_scalar_put(ws, off_of(h) as int, key, v);
}

/// A container that has been linked to a key is what the key leads to.
pub proof fn law_put_handle_then_read<M: Memory>(
    h: u64,
    key: &str,
    child: u64,
    m: &mut M,
    n: &mut M,
    r: Result<(), GraphError>,
    leads: Result<u64, GraphError>,
)
    requires
        wf(old(m).words()),
        live_table(old(m).words(), h),
        live(old(m).words(), child),
        container_kind(kind_of(child)),
        put_key_handle_gives(m, h, key, child, r),
        r is Ok,
        *old(n) == *final(m),
        read_key_handle_gives(n, h, key, leads),
        final(n).undisturbed(),
    ensures
        leads == Ok::<u64, GraphError>(child),
{
    lemma_read_key_handle(n, h, key, leads);
    lemma_put_key_handle(m, h, key, child, r);
    let ws = old(m).words();
    reveal(handle_kept);
    lemma_on_table(ws, h);
    crate::laws::law_link_then_get(ws, off_of(h) as int, key@, child);
}

/// What has been copied to a key is, read there, what it was behind its handle.
pub proof fn law_put_value_then_read<M: Memory>(
    h: u64,
    key: &str,
    value: u64,
    l: &mut M,
    m: &mut M,
    n: &mut M,
    was: Result<RVal, GraphError>,
    r: Result<(), GraphError>,
    got: Result<RVal, GraphError>,
)
    requires
        wf(old(l).words()),
        live_table(old(l).words(), h),
        live(old(l).words(), value),
        rval_gives(l, value, was),
        *old(m) == *final(l),
        put_key_value_gives(m, h, key, value, r),
        r is Ok,
        *old(n) == *final(m),
        get_key_gives(n, h, key, got),
        final(n).undisturbed(),
    ensures
        was is Ok,
        got is Ok,
        same_value(was->Ok_0, got->Ok_0),
{
    lemma_get_key(n, h, key, got);
    lemma_put_key_value(m, h, key, value, r);
    lemma_rval(l, value, was);
    let ws = old(m).words();
    lemma_not_locked(ws, value);
    lemma_value_there(ws, h, key@, value, r, final(m).words());
    lemma_alike(was->Ok_0, got->Ok_0);
}

proof fn lemma_value_there(
    ws: Seq<u64>,
    h: u64,
    key: Seq<char>,
    g: u64,
    r: Result<(), GraphError>,
    xs: Seq<u64>,
)
    requires
        wf(ws),
        live_table(ws, h),
        live(ws, g),
        value_kept(ws, off_of(h) as int, key, g, r, xs),
        r is Ok,
    ensures
        wf(xs),
        live_table(xs, h),
        value_at(xs, handle_for(xs, off_of(h) as int, key)) == value_at(ws, g),
{
    reveal(value_kept);
    let c = off_of(h) as int;
    lemma_on_table(ws, h);
    law_put_value_then_get(ws, c, key, g);
    crate::usage::lemma_kind_of_value(ws, g);
    if container_kind(kind_of(g)) {
        crate::laws::law_link_then_get(ws, c, key, g);
    } else {
        lemma_scalar_put(ws, c, key, value_at(ws, g));
    }
}

/// A new node holds the scalar that it was made for, and no other node has changed.
pub proof fn law_new_scalar_then_read<M: Memory>(
    s: Scalar,
    g: u64,
    h: u64,
    l: &mut M,
    m: &mut M,
    n: &mut M,
    o: &mut M,
    was: Result<RVal, GraphError>,
    r: Option<u64>,
    got: Result<RVal, GraphError>,
    other: Result<RVal, GraphError>,
)
    requires
        wf(old(l).words()),
        live(old(l).words(), g),
        rval_gives(l, g, was),
        *old(m) == *final(l),
        new_scalar_node_gives(m, s, r),
        r == Some(h),
        *old(n) == *final(m),
        rval_gives(n, h, got),
        *old(o) == *final(n),
        rval_gives(o, g, other),
        final(o).undisturbed(),
    ensures
        got matches Ok(v) && read_back(s, v),
        was is Ok,
        other is Ok,
        same_value(was->Ok_0, other->Ok_0),
        h != g,
{
    lemma_rval(o, g, other);
    lemma_rval(n, h, got);
    lemma_new_scalar_node(m, s, r);
    lemma_rval(l, g, was);
    lemma_made_apart(old(m).words(), s@, h, final(m).words(), g);
    lemma_reads_back(s, got->Ok_0);
    lemma_alike(was->Ok_0, other->Ok_0);
}

proof fn lemma_made_apart(ws: Seq<u64>, v: Value, h: u64, xs: Seq<u64>, g: u64)
    requires
        wf(ws),
        live(ws, g),
        !v.is_container(),
        scalar_made(ws, v, Some(h), xs),
    ensures
        value_at(xs, h) == v,
        value_at(xs, g) == value_at(ws, g),
        !value_locked(xs, h),
        !value_locked(xs, g),
        !value_locked(ws, g),
        h != g,
{
    reveal(scalar_made);
    lemma_with_scalar(ws, v);
    lemma_appended_frame(ws, xs, NODE_HDR + v.size());
    lemma_not_locked(ws, g);
    lemma_not_locked(xs, g);
    lemma_not_locked(xs, h);
    crate::layout::lemma_node(ws, off_of(g) as int);
}

/// A node that is made for a scalar on the way into an array holds it, too; and what is behind a
/// handle is the same whichever way it is read.
pub proof fn law_scalar_to_handle_then_read<M: Memory>(
    s: Scalar,
    h: u64,
    m: &mut M,
    n: &mut M,
    o: &mut M,
    r: Result<u64, ApiError>,
    got: Result<RVal, GraphError>,
    again: Result<RVal, GraphError>,
)
    requires
        wf(old(m).words()),
        call_ensures(scalar_to_handle::<M>, (m, &s), r),
        r == Ok::<u64, ApiError>(h),
        *old(n) == *final(m),
        rval_gives(n, h, got),
        *old(o) == *final(n),
        call_ensures(handle_to_rval::<M>, (o, h), again),
        final(o).undisturbed(),
    ensures
        got matches Ok(v) && read_back(s, v),
        again matches Ok(v) && read_back(s, v),
{
    lemma_rval(n, h, got);
    lemma_with_scalar(old(m).words(), s@);
    lemma_not_locked(final(m).words(), h);
    lemma_reads_back(s, got->Ok_0);
    lemma_reads_back(s, again->Ok_0);
}

/// Looking a key up finds where it is and what it leads to, if it is there, and nothing else.
pub proof fn law_found_key_is_there<M: Memory>(
    h: u64,
    c: u64,
    key: &str,
    m: &mut M,
    n: &mut M,
    o: &mut M,
    found: Option<(u64, Option<(u32, u64)>)>,
    there: Result<bool, GraphError>,
    leads: Result<u64, GraphError>,
)
    requires
        wf(old(m).words()),
        live_table(old(m).words(), h),
        c == off_of(h),
        call_ensures(find_key::<M>, (m, c, key), found),
        *old(n) == *final(m),
        has_key_gives(n, h, key, there),
        *old(o) == *final(n),
        read_key_handle_gives(o, h, key, leads),
        final(o).undisturbed(),
    ensures
        found is Some,
        there == Ok::<bool, GraphError>(found->Some_0.1 is Some),
        found->Some_0.1 matches Some((slot, v)) ==> leads == Ok::<u64, GraphError>(v),
        found->Some_0.1 is None ==> leads == Ok::<u64, GraphError>(0),
        found->Some_0.0 % 2 == 0,
{
    lemma_read_key_handle(o, h, key, leads);
    lemma_has_key(n, h, key, there);
    let ws = old(m).words();
    lemma_on_table(ws, h);
    lemma_leads_to(ws, off_of(h) as int, key@);
}

/// Deleting a key says whether it was there; afterwards it is not.
pub proof fn law_deleted_key_is_gone<M: Memory>(
    h: u64,
    key: &str,
    l: &mut M,
    m: &mut M,
    n: &mut M,
    there: Result<bool, GraphError>,
    was: Result<bool, GraphError>,
    still: Result<bool, GraphError>,
)
    requires
        wf(old(l).words()),
        live_table(old(l).words(), h),
        has_key_gives(l, h, key, there),
        *old(m) == *final(l),
        delete_key_gives(m, h, key, was),
        *old(n) == *final(m),
        has_key_gives(n, h, key, still),
        final(n).undisturbed(),
    ensures
        was is Ok,
        there == was,
        still == Ok::<bool, GraphError>(false),
{
    lemma_has_key(n, h, key, still);
    lemma_delete_key(m, h, key, was);
    lemma_has_key(l, h, key, there);
    let ws = old(m).words();
    lemma_on_table(ws, h);
    law_delete(ws, off_of(h) as int, key@);
}

/// Counting up a key gives one more than the number that was there, or one if there was none, and
/// leaves what it gives.
pub proof fn law_counter_counts_by_one<M: Memory>(
    h: u64,
    key: &str,
    l: &mut M,
    m: &mut M,
    n: &mut M,
    before: Result<RVal, GraphError>,
    r: Result<i64, GraphError>,
    later: Result<RVal, GraphError>,
)
    requires
        wf(old(l).words()),
        live_table(old(l).words(), h),
        get_key_gives(l, h, key, before),
        *old(m) == *final(l),
        increment_counter_gives(m, h, key, r),
        *old(n) == *final(m),
        get_key_gives(n, h, key, later),
        final(n).undisturbed(),
    ensures
        before is Ok,
        match before->Ok_0 {
            RVal::Int(u) => r matches Ok(v) && v == if u < i64::MAX {
                u + 1
            } else {
                i64::MIN as int
            },
            _ => r matches Ok(v) ==> v == 1,
        },
        r matches Ok(v) ==> (later matches Ok(RVal::Int(w)) && w == v),
{
    lemma_get_key(n, h, key, later);
    lemma_increment_counter(m, h, key, r);
    lemma_get_key(l, h, key, before);
    lemma_count(old(m).words(), h, key@);
}

/// The keys that are listed are those that are there, each of them once.
pub proof fn law_listed_keys_are_there<M: Memory>(
    h: u64,
    key: &str,
    m: &mut M,
    n: &mut M,
    list: Result<Vec<String>, GraphError>,
    there: Result<bool, GraphError>,
)
    requires
        wf(old(m).words()),
        live_table(old(m).words(), h),
        keys_of_gives(m, h, list),
        *old(n) == *final(m),
        has_key_gives(n, h, key, there),
        final(n).undisturbed(),
    ensures
        list is Ok,
        there is Ok,
        there->Ok_0 <==> lists(list->Ok_0@, key@),
        forall|i: int, j: int|
            0 <= i < j < list->Ok_0@.len() ==> (#[trigger] list->Ok_0@[i])@ != (
            #[trigger] list->Ok_0@[j])@,
{
    lemma_has_key(n, h, key, there);
    lemma_keys_of(m, h, list);
    let ws = old(m).words();
    lemma_on_table(ws, h);
    law_keys_are_listed(ws, off_of(h) as int, key@);
    lemma_listed(list->Ok_0@, key@);
}

// Arrays.

/// What has been put at an index is what is there; it can be put there if and only if the array has
/// a place for it.
pub proof fn law_put_index_then_read<M: Memory>(
    h: u64,
    i: usize,
    v: u64,
    m: &mut M,
    n: &mut M,
    r: Result<(), GraphError>,
    leads: Result<u64, GraphError>,
)
    requires
        wf(old(m).words()),
        live_list(old(m).words(), h),
        item_fits(old(m).words(), v),
        put_index_gives(m, h, i, v, r),
        *old(n) == *final(m),
        read_index_handle_gives(n, h, i, leads),
        final(n).undisturbed(),
    ensures
        r == if i < cap_of(old(m).words(), off_of(h) as int) {
            Ok::<(), GraphError>(())
        } else {
            Err(GraphError::ArrayFull)
        },
        r is Ok ==> leads == Ok::<u64, GraphError>(v),
        r is Err ==> final(m).words() == old(m).words(),
{
    lemma_read_index_handle(n, h, i, leads);
    lemma_put_index(m, h, i, v, r);
    let ws = old(m).words();
    lemma_node(ws, off_of(h) as int);
    if i < cap_of(ws, off_of(h) as int) {
        law_put_index_then_get(ws, off_of(h) as int, i as int, v);
    }
}

/// What has been appended is what is there at the last index of the array, and the length that is
/// given is one more than it was. There must be a place left.
pub proof fn law_append_then_read<M: Memory>(
    h: u64,
    v: u64,
    i: usize,
    l: &mut M,
    m: &mut M,
    n: &mut M,
    len: Result<u32, GraphError>,
    r: Result<u32, GraphError>,
    leads: Result<u64, GraphError>,
)
    requires
        wf(old(l).words()),
        live_list(old(l).words(), h),
        item_fits(old(l).words(), v),
        length_gives(l, h, len),
        *old(m) == *final(l),
        push_gives(m, h, v, r),
        r matches Ok(k) ==> i == k - 1,
        *old(n) == *final(m),
        read_index_handle_gives(n, h, i, leads),
        final(n).undisturbed(),
    ensures
        len is Ok,
        r == if len->Ok_0 < cap_of(old(m).words(), off_of(h) as int) {
            Ok::<u32, GraphError>((len->Ok_0 + 1) as u32)
        } else {
            Err(GraphError::ArrayFull)
        },
        r is Ok ==> leads == Ok::<u64, GraphError>(v),
{
    lemma_read_index_handle(n, h, i, leads);
    lemma_push(m, h, v, r);
    lemma_length(l, h, len);
    let ws = old(m).words();
    lemma_node(ws, off_of(h) as int);
    law_push(ws, off_of(h) as int, v);
}

/// What has been deleted at an index is gone.
pub proof fn law_delete_index_then_read<M: Memory>(
    h: u64,
    i: usize,
    m: &mut M,
    n: &mut M,
    r: Result<bool, GraphError>,
    leads: Result<u64, GraphError>,
)
    requires
        wf(old(m).words()),
        live_list(old(m).words(), h),
        delete_index_gives(m, h, i, r),
        *old(n) == *final(m),
        read_index_handle_gives(n, h, i, leads),
        final(n).undisturbed(),
    ensures
        r == if i < cap_of(old(m).words(), off_of(h) as int) {
            Ok::<bool, GraphError>(true)
        } else {
            Err(GraphError::ArrayFull)
        },
        leads == Ok::<u64, GraphError>(0),
{
    lemma_read_index_handle(n, h, i, leads);
    lemma_delete_index(m, h, i, r);
    let ws = old(m).words();
    lemma_node(ws, off_of(h) as int);
    if i < cap_of(ws, off_of(h) as int) {
        law_delete_index(ws, off_of(h) as int, i as int);
    }
}

// Containers.

/// New containers are of the kind that was asked for, with as many places as asked for, and empty.
pub proof fn law_new_containers<M: Memory>(
    cap: u32,
    k: &mut M,
    l: &mut M,
    m: &mut M,
    object: Option<u64>,
    array: Option<u64>,
    map: Option<u64>,
)
    requires
        wf(old(k).words()),
        call_ensures(create_object::<M>, (k, cap), object),
        *old(l) == *final(k),
        call_ensures(create_array::<M>, (l, cap), array),
        *old(m) == *final(l),
        call_ensures(create_map::<M>, (m, cap), map),
        final(m).undisturbed(),
    ensures
        object is Some <==> container_bytes(false, cap) <= room(old(k).words()),
        object matches Some(h) ==> h >> 56 == 1 && made_empty(final(k).words(), h, cap),
        array is Some <==> container_bytes(true, cap) <= room(old(l).words()),
        array matches Some(h) ==> h >> 56 == 2 && made_empty(final(l).words(), h, cap),
        map is Some <==> container_bytes(false, cap) <= room(old(m).words()),
        map matches Some(h) ==> h >> 56 == 3 && made_empty(final(m).words(), h, cap),
{
    law_new_container(old(k).words(), 1, cap);
    law_new_container(old(l).words(), 2, cap);
    law_new_container(old(m).words(), 3, cap);
    if let Some(h) = object {
        lemma_kind_byte(h);
    }
    if let Some(h) = array {
        lemma_kind_byte(h);
    }
    if let Some(h) = map {
        lemma_kind_byte(h);
    }
}

/// The container is there, with its places, and has nothing in it.
pub open spec fn made_empty(ws: Seq<u64>, h: u64, cap: u32) -> bool {
    let n = off_of(h) as int;
    &&& wf(ws)
    &&& live(ws, h)
    &&& cap_of(ws, n) == places(cap)
    &&& count_of(ws, n) == 0
}

/// The root is always the same object.
pub proof fn law_one_root_handle<M: Memory>(
    l: &mut M,
    m: &mut M,
    first: Option<u64>,
    second: Option<u64>,
)
    requires
        wf(old(l).words()),
        call_ensures(root_handle::<M>, (l,), first),
        *old(m) == *final(l),
        call_ensures(root_handle::<M>, (m,), second),
        final(m).undisturbed(),
    ensures
        first matches Some(h) ==> second == Some(h) && h >> 56 == 1 && live(final(l).words(), h)
            && final(m).words() == final(l).words(),
        region_header(old(l).words()).root != 0 ==> first == Some(
            region_header(old(l).words()).root,
        ) && final(l).words() == old(l).words(),
{
    let ws = old(l).words();
    lemma_rooted(ws);
    lemma_rooted(rooted(ws).1);
    if let Some(h) = first {
        lemma_kind_byte(h);
    }
}

} // verus!
