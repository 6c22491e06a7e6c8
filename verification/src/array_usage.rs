//! References to arrays, call after call.
//!
//! The calls are those of `steps`, on a region that is in order and that nobody else changes
//! meanwhile.
use crate::arena::odd;
use crate::exchange::{comes_back, lemma_comes_back};
use crate::frames::{lemma_appended_frame, same_list, same_table};
use crate::js::{shown, stored_as, ApiError, JsInput, JsKey, JsOutput, KeyName};
use crate::laws::law_nothing_behind_the_end;
use crate::layout::{
    cap_of, count_of, is_list, is_table, item_at, lemma_node, lemma_not_locked, lemma_with_scalar,
    live, live_list, seq_of, wf,
};
use crate::limits::{bytes_of, fits_a_node, lemma_bytes, node_bytes, room};
use crate::lists::item_fits;
use crate::memory::Memory;
use crate::node::{unlocked, value_at, value_locked, with_scalar};
use crate::noderef::{handle_read, value_set, NodeRef};
use crate::steps::{
    delete_gives, get_node_gives, get_value_gives, has_gives, lemma_delete, lemma_get_node,
    lemma_get_value, lemma_has, lemma_length, lemma_push, lemma_push_node, lemma_set,
    lemma_set_node, length_gives, node_appended, node_stored, push_gives, push_node_gives, removed,
    set_gives, set_node_gives, value_appended, value_stored,
};
use crate::tables::{item_for, item_put, lemma_container_not_a_key, pushed};
use crate::usage::{
    lemma_kind_of_value, lemma_read_live, lemma_same_read, lemma_same_shown, on_list, reads_alike,
    same_result,
};
use crate::value::{container_kind, kind_of, off_of, GraphError, Value, H_INVALID, KIND_ARRAY};
use vstd::prelude::*;

verus! {

/// What is known of an array.
proof fn lemma_on_list(ws: Seq<u64>, h: u64)
    requires
        wf(ws),
        live_list(ws, h),
    ensures
        is_list(ws, off_of(h) as int),
        !odd(seq_of(ws, off_of(h) as int)),
        unlocked(ws, off_of(h) as int),
        count_of(ws, off_of(h) as int) <= cap_of(ws, off_of(h) as int) <= u32::MAX,
{
    lemma_node(ws, off_of(h) as int);
}

/// What an index leads to.
pub proof fn lemma_item_read(ws: Seq<u64>, h: u64, i: i64)
    requires
        wf(ws),
        live_list(ws, h),
        i >= 0,
    ensures
        handle_read(ws, h, JsKey::Number(i)) == Ok::<u64, ApiError>(
            item_for(ws, off_of(h) as int, i as int),
        ),
        !value_locked(ws, item_for(ws, off_of(h) as int, i as int)),
        item_for(ws, off_of(h) as int, i as int) != H_INVALID ==> live(
            ws,
            item_for(ws, off_of(h) as int, i as int),
        ),
{
    let a = off_of(h) as int;
    lemma_on_list(ws, h);
    lemma_node(ws, a);
    let g = item_for(ws, a, i as int);
    if g != H_INVALID {
        assert(item_at(ws, a, i as int) == g);
        lemma_not_locked(ws, g);
    }
}

/// From `ws` to `xs` the array at `a` may have changed at index `i`, and in length; all else is as
/// it was.
pub open spec fn only_item(ws: Seq<u64>, xs: Seq<u64>, a: int, i: int) -> bool {
    &&& wf(xs)
    &&& forall|h: u64| #[trigger] live(ws, h) ==> live(xs, h)
    &&& is_list(xs, a)
    &&& cap_of(xs, a) == cap_of(ws, a)
    &&& forall|j: int|
        0 <= j < cap_of(ws, a) && j != i ==> #[trigger] item_at(xs, a, j) == item_at(ws, a, j)
    &&& forall|c: int| #[trigger] is_table(ws, c) ==> is_table(xs, c) && same_table(ws, xs, c)
    &&& forall|b: int| #[trigger]
        is_list(ws, b) ==> is_list(xs, b) && (b != a ==> same_list(ws, xs, b))
    &&& forall|h: u64| live(ws, h) ==> #[trigger] value_at(xs, h) == value_at(ws, h)
}

/// A new scalar, of which nothing else takes notice, can be put into an array.
proof fn lemma_new_scalar(ws: Seq<u64>, v: Value, a: int, i: int)
    requires
        wf(ws),
        is_list(ws, a),
        !v.is_container(),
    ensures
        ({
            let (new, w) = with_scalar(ws, v);
            &&& only_item(ws, w, a, i)
            &&& same_list(ws, w, a)
            &&& new matches Some(x) ==> item_fits(w, x) && live(w, x) && value_at(w, x) == v
                && kind_of(x) == v.kind()
            &&& new is None ==> w == ws
        }),
{
    lemma_with_scalar(ws, v);
    if let (Some(x), w) = with_scalar(ws, v) {
        lemma_appended_frame(ws, w, crate::node::NODE_HDR + v.size());
    }
}

proof fn lemma_join(ws: Seq<u64>, w: Seq<u64>, xs: Seq<u64>, a: int, i: int)
    requires
        is_list(ws, a),
        only_item(ws, w, a, i),
        only_item(w, xs, a, i),
    ensures
        only_item(ws, xs, a, i),
{
    assert forall|c: int| #[trigger] is_table(ws, c) implies is_table(xs, c) && same_table(
        ws,
        xs,
        c,
    ) by {
        assert(is_table(w, c));
        assert(same_table(ws, w, c));
        assert(same_table(w, xs, c));
    }
    assert forall|b: int| #[trigger] is_list(ws, b) implies is_list(xs, b) && (b != a ==> same_list(
        ws,
        xs,
        b,
    )) by {
        assert(is_list(w, b));
    }
    assert forall|h: u64| live(ws, h) implies #[trigger] value_at(xs, h) == value_at(ws, h) by {
        assert(live(w, h));
        assert(value_at(w, h) == value_at(ws, h));
    }
    assert forall|j: int| 0 <= j < cap_of(ws, a) && j != i implies #[trigger] item_at(xs, a, j)
        == item_at(ws, a, j) by {
        assert(item_at(w, a, j) == item_at(ws, a, j));
    }
}

/// Another index, or a key of another container.
pub open spec fn away(node: NodeRef, i: int, other: NodeRef, key: JsKey) -> bool {
    other.handle != node.handle || (key matches JsKey::Number(j) ==> j != i)
}

/// A change of one index leaves all other keys alone, here and elsewhere.
proof fn lemma_items_alike(
    ws: Seq<u64>,
    xs: Seq<u64>,
    node: NodeRef,
    i: int,
    other: NodeRef,
    key: JsKey,
)
    requires
        wf(ws),
        live_list(ws, node.handle),
        only_item(ws, xs, off_of(node.handle) as int, i),
        live(ws, other.handle),
        container_kind(kind_of(other.handle)),
        away(node, i, other, key) || same_list(ws, xs, off_of(node.handle) as int),
    ensures
        reads_alike(ws, xs, other.handle, key, H_INVALID),
{
    let h = other.handle;
    let d = off_of(h) as int;
    let a = off_of(node.handle) as int;
    lemma_on_list(ws, node.handle);
    crate::value::law_handle_parts(h);
    crate::value::law_handle_parts(node.handle);
    lemma_read_live(ws, h, key);
    if kind_of(h) == KIND_ARRAY {
        assert(is_list(ws, d));
        if d != a || same_list(ws, xs, a) {
            lemma_same_read(ws, xs, h, key);
        } else {
            assert(h == node.handle);
            lemma_not_locked(ws, h);
            lemma_not_locked(xs, h);
            if let JsKey::Number(j) = key {
                if 0 <= j < cap_of(ws, a) {
                    assert(item_at(xs, a, j as int) == item_at(ws, a, j as int));
                }
            }
        }
    } else {
        assert(is_table(ws, d));
        if let JsKey::Text(b) = key {
            assert(same_table(ws, xs, d));
            crate::tables::lemma_slot_from(
                ws,
                d,
                vstd::utf8::encode_utf8(b@),
                0,
                cap_of(ws, d),
            );
        }
        lemma_same_read(ws, xs, h, key);
    }
    lemma_read_live(xs, h, key);
}

// Setting an index.

/// Setting an index to a value.
proof fn lemma_item_stored(
    ws: Seq<u64>,
    h: u64,
    i: u32,
    value: JsInput,
    r: Result<(), ApiError>,
    xs: Seq<u64>,
)
    requires
        wf(ws),
        live_list(ws, h),
        value_stored(ws, h, KeyName::Index(i), value, r, xs),
    ensures
        ({
            let a = off_of(h) as int;
            let enough = fits_a_node(bytes_of(value)) && node_bytes(bytes_of(value)) <= room(ws);
            let g = item_for(xs, a, i as int);
            &&& only_item(ws, xs, a, i as int)
            &&& live_list(xs, h)
            &&& r is Ok <==> enough && i < cap_of(ws, a)
            &&& !enough ==> r == Err::<(), ApiError>(ApiError::CapacityExceeded)
            &&& enough && i >= cap_of(ws, a) ==> r == Err::<(), ApiError>(
                ApiError::Graph(GraphError::ArrayFull),
            )
            &&& r is Err ==> same_list(ws, xs, a)
            &&& r is Ok ==> {
                &&& g != H_INVALID
                &&& !container_kind(kind_of(g))
                &&& forall|out: JsOutput|
                    out@ == shown(value_at(xs, g)) ==> #[trigger] comes_back(value, out)
                &&& count_of(xs, a) == if count_of(ws, a) > i {
                    count_of(ws, a) as int
                } else {
                    i + 1
                }
            }
        }),
{
    reveal(value_stored);
    let a = off_of(h) as int;
    let v = choose|v: Value| #[trigger]
        stored_as(value, v) && (r, xs) == value_set(ws, h, KeyName::Index(i), v);
    lemma_on_list(ws, h);
    lemma_bytes(value, v);
    lemma_with_scalar(ws, v);
    lemma_new_scalar(ws, v, a, i as int);
    if let (Some(new), w) = with_scalar(ws, v) {
        lemma_on_list(w, h);
        if i < cap_of(w, a) {
            lemma_item_in(w, a, i as int, new);
            lemma_join(ws, w, xs, a, i as int);
            lemma_kind_of_value(w, new);
            assert forall|out: JsOutput| out@ == shown(value_at(xs, new)) implies
                #[trigger] comes_back(value, out) by {
                lemma_comes_back(value, v, out);
            }
        }
    }
}

/// Putting a handle into an array.
proof fn lemma_item_in(ws: Seq<u64>, a: int, i: int, v: u64)
    requires
        wf(ws),
        is_list(ws, a),
        0 <= i < cap_of(ws, a),
        item_fits(ws, v),
    ensures
        only_item(ws, item_put(ws, a, i, v), a, i),
        item_for(item_put(ws, a, i, v), a, i) == v,
        live(ws, v) ==> live(item_put(ws, a, i, v), v) && value_at(item_put(ws, a, i, v), v)
            == value_at(ws, v),
        count_of(item_put(ws, a, i, v), a) == if count_of(ws, a) > i {
            count_of(ws, a) as int
        } else {
            i + 1
        },
{
    crate::lists::lemma_item_put(ws, a, i, v);
}

/// Linking a container to an index.
proof fn lemma_item_linked(
    ws: Seq<u64>,
    h: u64,
    i: u32,
    child: u64,
    r: Result<(), ApiError>,
    xs: Seq<u64>,
)
    requires
        wf(ws),
        live_list(ws, h),
        live(ws, child),
        container_kind(kind_of(child)),
        node_stored(ws, h, KeyName::Index(i), child, r, xs),
    ensures
        ({
            let a = off_of(h) as int;
            &&& only_item(ws, xs, a, i as int)
            &&& live_list(xs, h)
            &&& r is Ok <==> i < cap_of(ws, a)
            &&& r is Err ==> r == Err::<(), ApiError>(ApiError::Graph(GraphError::ArrayFull))
                && same_list(ws, xs, a)
            &&& r is Ok ==> {
                &&& item_for(xs, a, i as int) == child
                &&& value_at(xs, child).is_container()
                &&& count_of(xs, a) == if count_of(ws, a) > i {
                    count_of(ws, a) as int
                } else {
                    i + 1
                }
            }
        }),
{
    reveal(node_stored);
    let a = off_of(h) as int;
    lemma_on_list(ws, h);
    lemma_container_not_a_key(ws, child);
    lemma_kind_of_value(ws, child);
    if i < cap_of(ws, a) {
        lemma_item_in(ws, a, i as int, child);
    }
}

/// Appending a value.
proof fn lemma_value_appended(
    ws: Seq<u64>,
    h: u64,
    value: JsInput,
    r: Result<u32, ApiError>,
    xs: Seq<u64>,
)
    requires
        wf(ws),
        live_list(ws, h),
        value_appended(ws, h, value, r, xs),
    ensures
        ({
            let a = off_of(h) as int;
            let len = count_of(ws, a);
            let enough = fits_a_node(bytes_of(value)) && node_bytes(bytes_of(value)) <= room(ws);
            let g = item_for(xs, a, len as int);
            &&& only_item(ws, xs, a, len as int)
            &&& live_list(xs, h)
            &&& r is Ok <==> enough && len < cap_of(ws, a)
            &&& !enough ==> r == Err::<u32, ApiError>(ApiError::CapacityExceeded)
            &&& enough && len >= cap_of(ws, a) ==> r == Err::<u32, ApiError>(
                ApiError::Graph(GraphError::ArrayFull),
            )
            &&& r is Err ==> same_list(ws, xs, a)
            &&& r matches Ok(n) ==> {
                &&& n == len + 1
                &&& count_of(xs, a) == n
                &&& g != H_INVALID
                &&& !container_kind(kind_of(g))
                &&& forall|out: JsOutput|
                    out@ == shown(value_at(xs, g)) ==> #[trigger] comes_back(value, out)
            }
        }),
{
    reveal(value_appended);
    let a = off_of(h) as int;
    let len = count_of(ws, a) as int;
    let v = choose|v: Value| #[trigger]
        stored_as(value, v) && (r, xs) == match with_scalar(ws, v) {
            (Some(new), w) => crate::noderef::item_pushed(w, h, new),
            (None, w) => (Err(ApiError::CapacityExceeded), w),
        };
    lemma_on_list(ws, h);
    lemma_bytes(value, v);
    lemma_with_scalar(ws, v);
    lemma_new_scalar(ws, v, a, len);
    if let (Some(new), w) = with_scalar(ws, v) {
        lemma_on_list(w, h);
        lemma_pushed_in(w, a, new);
        lemma_join(ws, w, xs, a, len);
        lemma_kind_of_value(w, new);
        assert forall|out: JsOutput| out@ == shown(value_at(xs, new)) implies #[trigger] comes_back(
            value,
            out,
        ) by {
            lemma_comes_back(value, v, out);
        }
    }
}

/// Appending a handle.
proof fn lemma_pushed_in(ws: Seq<u64>, a: int, v: u64)
    requires
        wf(ws),
        is_list(ws, a),
        item_fits(ws, v),
    ensures
        ({
            let len = count_of(ws, a);
            let (r, xs) = pushed(ws, a, v);
            &&& only_item(ws, xs, a, len as int)
            &&& live(ws, v) ==> live(xs, v) && value_at(xs, v) == value_at(ws, v)
            &&& r is Ok <==> len < cap_of(ws, a)
            &&& r matches Ok(n) ==> n == len + 1 && count_of(xs, a) == n && item_for(
                xs,
                a,
                len as int,
            ) == v
            &&& r matches Err(e) ==> e == GraphError::ArrayFull && same_list(ws, xs, a)
        }),
{
    crate::lists::lemma_pushed(ws, a, v);
}

/// Appending a container.
proof fn lemma_node_appended(
    ws: Seq<u64>,
    h: u64,
    child: u64,
    r: Result<u32, ApiError>,
    xs: Seq<u64>,
)
    requires
        wf(ws),
        live_list(ws, h),
        live(ws, child),
        container_kind(kind_of(child)),
        node_appended(ws, h, child, r, xs),
    ensures
        ({
            let a = off_of(h) as int;
            let len = count_of(ws, a);
            &&& only_item(ws, xs, a, len as int)
            &&& live_list(xs, h)
            &&& r is Ok <==> len < cap_of(ws, a)
            &&& r is Err ==> r == Err::<u32, ApiError>(ApiError::Graph(GraphError::ArrayFull))
                && same_list(ws, xs, a)
            &&& r matches Ok(n) ==> {
                &&& n == len + 1
                &&& count_of(xs, a) == n
                &&& item_for(xs, a, len as int) == child
                &&& value_at(xs, child).is_container()
            }
        }),
{
    reveal(node_appended);
    let a = off_of(h) as int;
    lemma_on_list(ws, h);
    lemma_container_not_a_key(ws, child);
    lemma_kind_of_value(ws, child);
    lemma_pushed_in(ws, a, child);
}

/// Deleting an index.
proof fn lemma_item_gone(ws: Seq<u64>, h: u64, i: u32, r: Result<bool, ApiError>, xs: Seq<u64>)
    requires
        wf(ws),
        live_list(ws, h),
        removed(ws, h, KeyName::Index(i), r, xs),
    ensures
        ({
            let a = off_of(h) as int;
            &&& only_item(ws, xs, a, i as int)
            &&& live_list(xs, h)
            &&& i < cap_of(ws, a) ==> r == Ok::<bool, ApiError>(true)
            &&& i >= cap_of(ws, a) ==> r == Err::<bool, ApiError>(
                ApiError::Graph(GraphError::ArrayFull),
            ) && same_list(ws, xs, a)
            &&& item_for(xs, a, i as int) == H_INVALID
            &&& count_of(xs, a) == count_of(ws, a)
        }),
{
    reveal(removed);
    let a = off_of(h) as int;
    lemma_on_list(ws, h);
    if i < cap_of(ws, a) {
        crate::lists::lemma_item_removed(ws, a, i as int);
    }
}

// The laws.

/// What has been set at an index is what is there at that index: the very value that was handed
/// over. The array reaches at least behind that index, and is otherwise as long as it was.
pub proof fn law_set_index_then_get<M: Memory>(
    node: NodeRef,
    i: i64,
    value: JsInput,
    l: &mut M,
    m: &mut M,
    n: &mut M,
    o: &mut M,
    p: &mut M,
    len: u32,
    r: Result<(), ApiError>,
    got: Result<JsOutput, ApiError>,
    there: Result<bool, ApiError>,
    new_len: u32,
)
    requires
        on_list(*old(l), node),
        length_gives(node, l, len),
        *old(m) == *final(l),
        set_gives(node, m, JsKey::Number(i), value, r),
        r is Ok,
        *old(n) == *final(m),
        get_value_gives(node, n, JsKey::Number(i), got),
        *old(o) == *final(n),
        has_gives(node, o, JsKey::Number(i), there),
        *old(p) == *final(o),
        length_gives(node, p, new_len),
        final(p).undisturbed(),
    ensures
        got matches Ok(out) && comes_back(value, out),
        there == Ok::<bool, ApiError>(true),
        new_len == if len > i {
            len as int
        } else {
            i + 1
        },
{
    lemma_length(node, p, new_len);
    lemma_has(node, o, JsKey::Number(i), there);
    lemma_get_value(node, n, JsKey::Number(i), got);
    lemma_set(node, m, JsKey::Number(i), value, r);
    lemma_length(node, l, len);
    let ws = old(m).words();
    let xs = final(m).words();
    let j = if i <= u32::MAX {
        i as u32
    } else {
        u32::MAX
    };
    lemma_on_list(ws, node.handle);
    lemma_item_stored(ws, node.handle, j, value, r, xs);
    lemma_on_list(xs, node.handle);
    lemma_item_read(xs, node.handle, i);
}

/// A container that has been linked to an index is the very node that is there at that index.
pub proof fn law_set_node_index_then_get<M: Memory>(
    node: NodeRef,
    i: i64,
    child: NodeRef,
    l: &mut M,
    m: &mut M,
    n: &mut M,
    o: &mut M,
    p: &mut M,
    len: u32,
    r: Result<(), ApiError>,
    got: Result<Option<NodeRef>, ApiError>,
    shows: Result<JsOutput, ApiError>,
    new_len: u32,
)
    requires
        on_list(*old(l), node),
        live(old(l).words(), child.handle),
        container_kind(kind_of(child.handle)),
        length_gives(node, l, len),
        *old(m) == *final(l),
        set_node_gives(node, m, JsKey::Number(i), child, r),
        r is Ok,
        *old(n) == *final(m),
        get_node_gives(node, n, JsKey::Number(i), got),
        *old(o) == *final(n),
        get_value_gives(node, o, JsKey::Number(i), shows),
        *old(p) == *final(o),
        length_gives(node, p, new_len),
        final(p).undisturbed(),
    ensures
        got matches Ok(Some(g)) && g.handle == child.handle && g.base == node.base,
        shows matches Ok(JsOutput::Null),
        new_len == if len > i {
            len as int
        } else {
            i + 1
        },
{
    lemma_length(node, p, new_len);
    lemma_get_value(node, o, JsKey::Number(i), shows);
    lemma_get_node(node, n, JsKey::Number(i), got);
    lemma_set_node(node, m, JsKey::Number(i), child, r);
    lemma_length(node, l, len);
    let ws = old(m).words();
    let xs = final(m).words();
    let j = if i <= u32::MAX {
        i as u32
    } else {
        u32::MAX
    };
    lemma_on_list(ws, node.handle);
    lemma_item_linked(ws, node.handle, j, child.handle, r, xs);
    lemma_on_list(xs, node.handle);
    lemma_item_read(xs, node.handle, i);
}

/// Appending a value gives the new length, which is one more than the old one; the value is then
/// the last one of the array: the very value that was handed over.
pub proof fn law_push_then_get<M: Memory>(
    node: NodeRef,
    i: i64,
    value: JsInput,
    l: &mut M,
    m: &mut M,
    n: &mut M,
    o: &mut M,
    p: &mut M,
    len: u32,
    r: Result<u32, ApiError>,
    got: Result<JsOutput, ApiError>,
    there: Result<bool, ApiError>,
    new_len: u32,
)
    requires
        on_list(*old(l), node),
        length_gives(node, l, len),
        *old(m) == *final(l),
        push_gives(node, m, value, r),
        r matches Ok(k) && i == k - 1,
        *old(n) == *final(m),
        get_value_gives(node, n, JsKey::Number(i), got),
        *old(o) == *final(n),
        has_gives(node, o, JsKey::Number(i), there),
        *old(p) == *final(o),
        length_gives(node, p, new_len),
        final(p).undisturbed(),
    ensures
        r == Ok::<u32, ApiError>(new_len),
        new_len == len + 1,
        got matches Ok(out) && comes_back(value, out),
        there == Ok::<bool, ApiError>(true),
{
    lemma_length(node, p, new_len);
    lemma_has(node, o, JsKey::Number(i), there);
    lemma_get_value(node, n, JsKey::Number(i), got);
    lemma_push(node, m, value, r);
    lemma_length(node, l, len);
    let ws = old(m).words();
    let xs = final(m).words();
    lemma_on_list(ws, node.handle);
    lemma_value_appended(ws, node.handle, value, r, xs);
    lemma_on_list(xs, node.handle);
    lemma_item_read(xs, node.handle, i);
}

/// Appending a container gives the new length, and the very node is then the last one of the array.
pub proof fn law_push_node_then_get<M: Memory>(
    node: NodeRef,
    i: i64,
    child: NodeRef,
    l: &mut M,
    m: &mut M,
    n: &mut M,
    o: &mut M,
    p: &mut M,
    len: u32,
    r: Result<u32, ApiError>,
    got: Result<Option<NodeRef>, ApiError>,
    shows: Result<JsOutput, ApiError>,
    new_len: u32,
)
    requires
        on_list(*old(l), node),
        live(old(l).words(), child.handle),
        container_kind(kind_of(child.handle)),
        length_gives(node, l, len),
        *old(m) == *final(l),
        push_node_gives(node, m, child, r),
        r matches Ok(k) && i == k - 1,
        *old(n) == *final(m),
        get_node_gives(node, n, JsKey::Number(i), got),
        *old(o) == *final(n),
        get_value_gives(node, o, JsKey::Number(i), shows),
        *old(p) == *final(o),
        length_gives(node, p, new_len),
        final(p).undisturbed(),
    ensures
        r == Ok::<u32, ApiError>(new_len),
        new_len == len + 1,
        got matches Ok(Some(g)) && g.handle == child.handle && g.base == node.base,
        shows matches Ok(JsOutput::Null),
{
    lemma_length(node, p, new_len);
    lemma_get_value(node, o, JsKey::Number(i), shows);
    lemma_get_node(node, n, JsKey::Number(i), got);
    lemma_push_node(node, m, child, r);
    lemma_length(node, l, len);
    let ws = old(m).words();
    let xs = final(m).words();
    lemma_on_list(ws, node.handle);
    lemma_node_appended(ws, node.handle, child.handle, r, xs);
    lemma_on_list(xs, node.handle);
    lemma_item_read(xs, node.handle, i);
}

/// Deleting an index that the array has a place for always succeeds, and says so. Nothing is there
/// afterwards, and the array is as long as it was.
pub proof fn law_deleted_index_is_gone<M: Memory>(
    node: NodeRef,
    i: i64,
    l: &mut M,
    m: &mut M,
    n: &mut M,
    o: &mut M,
    p: &mut M,
    len: u32,
    r: Result<bool, ApiError>,
    shows: Result<JsOutput, ApiError>,
    has: Result<bool, ApiError>,
    new_len: u32,
)
    requires
        on_list(*old(l), node),
        i >= 0,
        length_gives(node, l, len),
        *old(m) == *final(l),
        delete_gives(node, m, JsKey::Number(i), r),
        *old(n) == *final(m),
        get_value_gives(node, n, JsKey::Number(i), shows),
        *old(o) == *final(n),
        has_gives(node, o, JsKey::Number(i), has),
        *old(p) == *final(o),
        length_gives(node, p, new_len),
        final(p).undisturbed(),
    ensures
        r == if i < cap_of(old(m).words(), off_of(node.handle) as int) {
            Ok::<bool, ApiError>(true)
        } else {
            Err(ApiError::Graph(GraphError::ArrayFull))
        },
        shows matches Ok(JsOutput::Null),
        has == Ok::<bool, ApiError>(false),
        new_len == len,
{
    lemma_length(node, p, new_len);
    lemma_has(node, o, JsKey::Number(i), has);
    lemma_get_value(node, n, JsKey::Number(i), shows);
    lemma_delete(node, m, JsKey::Number(i), r);
    lemma_length(node, l, len);
    let ws = old(m).words();
    let xs = final(m).words();
    let j = if i <= u32::MAX {
        i as u32
    } else {
        u32::MAX
    };
    lemma_on_list(ws, node.handle);
    lemma_item_gone(ws, node.handle, j, r, xs);
    lemma_on_list(xs, node.handle);
    lemma_item_read(xs, node.handle, i);
}

/// Behind the end of an array there is nothing.
pub proof fn law_nothing_past_the_end<M: Memory>(
    node: NodeRef,
    i: i64,
    l: &mut M,
    m: &mut M,
    n: &mut M,
    o: &mut M,
    len: u32,
    shows: Result<JsOutput, ApiError>,
    has: Result<bool, ApiError>,
    got: Result<Option<NodeRef>, ApiError>,
)
    requires
        on_list(*old(l), node),
        length_gives(node, l, len),
        i >= len,
        *old(m) == *final(l),
        get_value_gives(node, m, JsKey::Number(i), shows),
        *old(n) == *final(m),
        has_gives(node, n, JsKey::Number(i), has),
        *old(o) == *final(n),
        get_node_gives(node, o, JsKey::Number(i), got),
        final(o).undisturbed(),
    ensures
        shows matches Ok(JsOutput::Null),
        has == Ok::<bool, ApiError>(false),
        got matches Ok(None),
{
    lemma_get_node(node, o, JsKey::Number(i), got);
    lemma_has(node, n, JsKey::Number(i), has);
    lemma_get_value(node, m, JsKey::Number(i), shows);
    lemma_length(node, l, len);
    let ws = old(m).words();
    lemma_on_list(ws, node.handle);
    law_nothing_behind_the_end(ws, off_of(node.handle) as int, i as int);
    lemma_item_read(ws, node.handle, i);
}

/// Setting an index changes no other index of the array, no key of any other container, and no
/// value; if it fails, it changes nothing at all.
pub proof fn law_set_index_changes_nothing_else<M: Memory>(
    node: NodeRef,
    i: i64,
    value: JsInput,
    other: NodeRef,
    key: JsKey,
    l: &mut M,
    m: &mut M,
    n: &mut M,
    before: Result<JsOutput, ApiError>,
    r: Result<(), ApiError>,
    later: Result<JsOutput, ApiError>,
)
    requires
        on_list(*old(l), node),
        live(old(l).words(), other.handle),
        container_kind(kind_of(other.handle)),
        away(node, i as int, other, key) || r is Err,
        get_value_gives(other, l, key, before),
        *old(m) == *final(l),
        set_gives(node, m, JsKey::Number(i), value, r),
        *old(n) == *final(m),
        get_value_gives(other, n, key, later),
        final(n).undisturbed(),
    ensures
        same_result(before, later),
        handle_read(final(m).words(), other.handle, key) == handle_read(
            old(m).words(),
            other.handle,
            key,
        ),
{
    lemma_get_value(other, n, key, later);
    lemma_set(node, m, JsKey::Number(i), value, r);
    lemma_get_value(other, l, key, before);
    let ws = old(m).words();
    let xs = final(m).words();
    if value is Other || i < 0 {
        lemma_read_live(ws, other.handle, key);
    } else {
        let j = if i <= u32::MAX {
            i as u32
        } else {
            u32::MAX
        };
        lemma_item_stored(ws, node.handle, j, value, r, xs);
        lemma_items_alike(ws, xs, node, j as int, other, key);
    }
    lemma_same_shown(before->Ok_0, later->Ok_0);
}

/// Linking a container to an index changes no other index of the array, no key of any other
/// container, and no value; if it fails, it changes nothing at all.
pub proof fn law_set_node_index_changes_nothing_else<M: Memory>(
    node: NodeRef,
    i: i64,
    child: NodeRef,
    other: NodeRef,
    key: JsKey,
    l: &mut M,
    m: &mut M,
    n: &mut M,
    before: Result<JsOutput, ApiError>,
    r: Result<(), ApiError>,
    later: Result<JsOutput, ApiError>,
)
    requires
        on_list(*old(l), node),
        live(old(l).words(), child.handle),
        container_kind(kind_of(child.handle)),
        live(old(l).words(), other.handle),
        container_kind(kind_of(other.handle)),
        away(node, i as int, other, key) || r is Err,
        get_value_gives(other, l, key, before),
        *old(m) == *final(l),
        set_node_gives(node, m, JsKey::Number(i), child, r),
        *old(n) == *final(m),
        get_value_gives(other, n, key, later),
        final(n).undisturbed(),
    ensures
        same_result(before, later),
        handle_read(final(m).words(), other.handle, key) == handle_read(
            old(m).words(),
            other.handle,
            key,
        ),
{
    lemma_get_value(other, n, key, later);
    lemma_set_node(node, m, JsKey::Number(i), child, r);
    lemma_get_value(other, l, key, before);
    let ws = old(m).words();
    let xs = final(m).words();
    if i < 0 {
        lemma_read_live(ws, other.handle, key);
    } else {
        let j = if i <= u32::MAX {
            i as u32
        } else {
            u32::MAX
        };
        lemma_item_linked(ws, node.handle, j, child.handle, r, xs);
        lemma_items_alike(ws, xs, node, j as int, other, key);
    }
    lemma_same_shown(before->Ok_0, later->Ok_0);
}

/// Appending a value changes no index that the array reached to, no key of any other container, and
/// no value; if it fails, it changes nothing at all.
pub proof fn law_push_changes_nothing_else<M: Memory>(
    node: NodeRef,
    value: JsInput,
    other: NodeRef,
    key: JsKey,
    l: &mut M,
    m: &mut M,
    n: &mut M,
    before: Result<JsOutput, ApiError>,
    r: Result<u32, ApiError>,
    later: Result<JsOutput, ApiError>,
)
    requires
        on_list(*old(l), node),
        live(old(l).words(), other.handle),
        container_kind(kind_of(other.handle)),
        away(
            node,
            count_of(old(m).words(), off_of(node.handle) as int) as int,
            other,
            key,
        ) || r is Err,
        get_value_gives(other, l, key, before),
        *old(m) == *final(l),
        push_gives(node, m, value, r),
        *old(n) == *final(m),
        get_value_gives(other, n, key, later),
        final(n).undisturbed(),
    ensures
        same_result(before, later),
        handle_read(final(m).words(), other.handle, key) == handle_read(
            old(m).words(),
            other.handle,
            key,
        ),
{
    lemma_get_value(other, n, key, later);
    lemma_push(node, m, value, r);
    lemma_get_value(other, l, key, before);
    let ws = old(m).words();
    let xs = final(m).words();
    if value is Other {
        lemma_read_live(ws, other.handle, key);
    } else {
        lemma_value_appended(ws, node.handle, value, r, xs);
        lemma_items_alike(
            ws,
            xs,
            node,
            count_of(ws, off_of(node.handle) as int) as int,
            other,
            key,
        );
    }
    lemma_same_shown(before->Ok_0, later->Ok_0);
}

/// Appending a container changes no index that the array reached to, no key of any other container,
/// and no value; if it fails, it changes nothing at all.
pub proof fn law_push_node_changes_nothing_else<M: Memory>(
    node: NodeRef,
    child: NodeRef,
    other: NodeRef,
    key: JsKey,
    l: &mut M,
    m: &mut M,
    n: &mut M,
    before: Result<JsOutput, ApiError>,
    r: Result<u32, ApiError>,
    later: Result<JsOutput, ApiError>,
)
    requires
        on_list(*old(l), node),
        live(old(l).words(), child.handle),
        container_kind(kind_of(child.handle)),
        live(old(l).words(), other.handle),
        container_kind(kind_of(other.handle)),
        away(
            node,
            count_of(old(m).words(), off_of(node.handle) as int) as int,
            other,
            key,
        ) || r is Err,
        get_value_gives(other, l, key, before),
        *old(m) == *final(l),
        push_node_gives(node, m, child, r),
        *old(n) == *final(m),
        get_value_gives(other, n, key, later),
        final(n).undisturbed(),
    ensures
        same_result(before, later),
        handle_read(final(m).words(), other.handle, key) == handle_read(
            old(m).words(),
            other.handle,
            key,
        ),
{
    lemma_get_value(other, n, key, later);
    lemma_push_node(node, m, child, r);
    lemma_get_value(other, l, key, before);
    let ws = old(m).words();
    let xs = final(m).words();
    lemma_node_appended(ws, node.handle, child.handle, r, xs);
    lemma_items_alike(
        ws,
        xs,
        node,
        count_of(ws, off_of(node.handle) as int) as int,
        other,
        key,
    );
    lemma_same_shown(before->Ok_0, later->Ok_0);
}

/// Deleting an index changes no other index of the array, no key of any other container, and no
/// value; if it fails, it changes nothing at all.
pub proof fn law_delete_index_changes_nothing_else<M: Memory>(
    node: NodeRef,
    i: i64,
    other: NodeRef,
    key: JsKey,
    l: &mut M,
    m: &mut M,
    n: &mut M,
    before: Result<JsOutput, ApiError>,
    r: Result<bool, ApiError>,
    later: Result<JsOutput, ApiError>,
)
    requires
        on_list(*old(l), node),
        live(old(l).words(), other.handle),
        container_kind(kind_of(other.handle)),
        away(node, i as int, other, key) || r is Err,
        get_value_gives(other, l, key, before),
        *old(m) == *final(l),
        delete_gives(node, m, JsKey::Number(i), r),
        *old(n) == *final(m),
        get_value_gives(other, n, key, later),
        final(n).undisturbed(),
    ensures
        same_result(before, later),
        handle_read(final(m).words(), other.handle, key) == handle_read(
            old(m).words(),
            other.handle,
            key,
        ),
{
    lemma_get_value(other, n, key, later);
    lemma_delete(node, m, JsKey::Number(i), r);
    lemma_get_value(other, l, key, before);
    let ws = old(m).words();
    let xs = final(m).words();
    if i < 0 {
        lemma_read_live(ws, other.handle, key);
    } else {
        let j = if i <= u32::MAX {
            i as u32
        } else {
            u32::MAX
        };
        lemma_item_gone(ws, node.handle, j, r, xs);
        lemma_items_alike(ws, xs, node, j as int, other, key);
    }
    lemma_same_shown(before->Ok_0, later->Ok_0);
}

/// When setting an index of an array succeeds: with space for the value, if the array has a place
/// for the index. The refusal says which of the two was missing.
pub proof fn law_when_set_index_succeeds<M: Memory>(
    node: NodeRef,
    i: i64,
    value: JsInput,
    m: &mut M,
    r: Result<(), ApiError>,
)
    requires
        on_list(*old(m), node),
        i >= 0,
        value !is Other,
        set_gives(node, m, JsKey::Number(i), value, r),
        final(m).undisturbed(),
    ensures
        ({
            let ws = old(m).words();
            let cap = cap_of(ws, off_of(node.handle) as int);
            let enough = fits_a_node(bytes_of(value)) && node_bytes(bytes_of(value)) <= room(ws);
            &&& r is Ok <==> enough && i < cap
            &&& !enough ==> r == Err::<(), ApiError>(ApiError::CapacityExceeded)
            &&& enough && i >= cap ==> r == Err::<(), ApiError>(
                ApiError::Graph(GraphError::ArrayFull),
            )
        }),
{
    lemma_set(node, m, JsKey::Number(i), value, r);
    let j = if i <= u32::MAX {
        i as u32
    } else {
        u32::MAX
    };
    lemma_on_list(old(m).words(), node.handle);
    lemma_item_stored(old(m).words(), node.handle, j, value, r, final(m).words());
}

/// When appending a value to an array succeeds: with space for the value, if the array has a place
/// left. The refusal says which of the two was missing.
pub proof fn law_when_push_succeeds<M: Memory>(
    node: NodeRef,
    value: JsInput,
    l: &mut M,
    m: &mut M,
    len: u32,
    r: Result<u32, ApiError>,
)
    requires
        on_list(*old(l), node),
        value !is Other,
        length_gives(node, l, len),
        *old(m) == *final(l),
        push_gives(node, m, value, r),
        final(m).undisturbed(),
    ensures
        ({
            let ws = old(m).words();
            let cap = cap_of(ws, off_of(node.handle) as int);
            let enough = fits_a_node(bytes_of(value)) && node_bytes(bytes_of(value)) <= room(ws);
            &&& r is Ok <==> enough && len < cap
            &&& !enough ==> r == Err::<u32, ApiError>(ApiError::CapacityExceeded)
            &&& enough && len >= cap ==> r == Err::<u32, ApiError>(
                ApiError::Graph(GraphError::ArrayFull),
            )
        }),
{
    lemma_push(node, m, value, r);
    lemma_length(node, l, len);
    lemma_on_list(old(m).words(), node.handle);
    lemma_value_appended(old(m).words(), node.handle, value, r, final(m).words());
}

/// When linking a container to an index succeeds, and when appending one does: if the array has a
/// place for it.
pub proof fn law_when_nodes_go_in<M: Memory>(
    node: NodeRef,
    i: i64,
    child: NodeRef,
    l: &mut M,
    m: &mut M,
    n: &mut M,
    len: u32,
    r: Result<(), ApiError>,
    s: Result<u32, ApiError>,
)
    requires
        on_list(*old(l), node),
        i >= 0,
        live(old(l).words(), child.handle),
        container_kind(kind_of(child.handle)),
        length_gives(node, l, len),
        *old(m) == *final(l),
        set_node_gives(node, m, JsKey::Number(i), child, r),
        old(n).words() == old(m).words(),
        push_node_gives(node, n, child, s),
        final(m).undisturbed(),
        final(n).undisturbed(),
    ensures
        ({
            let cap = cap_of(old(m).words(), off_of(node.handle) as int);
            &&& i < cap ==> r is Ok
            &&& i >= cap ==> r == Err::<(), ApiError>(ApiError::Graph(GraphError::ArrayFull))
            &&& len < cap ==> s is Ok
            &&& len >= cap ==> s == Err::<u32, ApiError>(ApiError::Graph(GraphError::ArrayFull))
        }),
{
    lemma_push_node(node, n, child, s);
    lemma_set_node(node, m, JsKey::Number(i), child, r);
    lemma_length(node, l, len);
    let ws = old(m).words();
    let j = if i <= u32::MAX {
        i as u32
    } else {
        u32::MAX
    };
    lemma_on_list(ws, node.handle);
    lemma_item_linked(ws, node.handle, j, child.handle, r, final(m).words());
    lemma_node_appended(ws, node.handle, child.handle, s, final(n).words());
}

} // verus!
