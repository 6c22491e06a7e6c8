//! References to objects, maps and arrays, call after call.
//!
//! As in `exchange`, the laws speak of the calls themselves: of several calls, one after the other,
//! on a region that is in order and that nobody else changes meanwhile. `m` is the memory as one
//! call finds it, `final(m)` as it leaves it to the next.
use crate::arena::odd;
use crate::effects::{others_kept, overwritten};
use crate::exchange::{comes_back, lemma_comes_back, same_output};
use crate::frames::{same_list, same_table};
use crate::graph::texts;
use crate::js::{shown, stored_as, ApiError, JsInput, JsKey, JsOutput, KeyName};
use crate::laws::{
    law_delete, law_increment, law_keys_are_listed, law_link_then_get, law_put_counts,
    law_put_keeps_the_rest, law_put_then_get, value_for,
};
use crate::layout::{
    cap_of, count_of, is_list, is_table, item_at, lemma_node, lemma_not_locked, live, live_list,
    live_table, seq_of, wf,
};
use crate::memory::Memory;
use crate::node::{value_at, value_locked};
use crate::noderef::{handle_read, value_set, NodeRef};
use crate::order::{after_put, law_put_keeps_the_order, packed, Put};
use crate::steps::{
    delete_gives, get_node_gives, get_value_gives, has_gives, increment_gives, keys_gives,
    lemma_delete, lemma_get_node, lemma_get_value, lemma_has, lemma_increment, lemma_keys,
    lemma_length, lemma_read_handle, lemma_set, lemma_set_node, length_gives, node_stored,
    read_handle_gives, removed, set_gives, set_node_gives, value_stored,
};
use crate::tables::{counted, handle_for, scalar_put, slot_of};
use crate::value::{container_kind, kind_of, off_of, Value, H_INVALID, KIND_ARRAY};
use vstd::prelude::*;

verus! {

/// The region is in order, and `node` is an object or map of it.
pub open spec fn on_table<M: Memory>(m: M, node: NodeRef) -> bool {
    wf(m.words()) && live_table(m.words(), node.handle)
}

/// The region is in order, and `node` is an array of it.
pub open spec fn on_list<M: Memory>(m: M, node: NodeRef) -> bool {
    wf(m.words()) && live_list(m.words(), node.handle)
}

/// What is known of an object or map.
pub proof fn lemma_on_table(ws: Seq<u64>, h: u64)
    requires
        wf(ws),
        live_table(ws, h),
    ensures
        is_table(ws, off_of(h) as int),
        !odd(seq_of(ws, off_of(h) as int)),
        count_of(ws, off_of(h) as int) <= cap_of(ws, off_of(h) as int) <= u32::MAX,
{
    lemma_node(ws, off_of(h) as int);
    crate::layout::lemma_occupied_bound(
        ws,
        off_of(h) as int,
        cap_of(ws, off_of(h) as int),
    );
}

/// What a key leads to is a node, which nobody is writing, or nothing.
pub proof fn lemma_leads_to(ws: Seq<u64>, c: int, key: Seq<char>)
    requires
        wf(ws),
        is_table(ws, c),
    ensures
        slot_of(ws, c, key) is Some ==> live(ws, handle_for(ws, c, key)),
        slot_of(ws, c, key) is None ==> handle_for(ws, c, key) == H_INVALID,
        !value_locked(ws, handle_for(ws, c, key)),
{
    crate::tables::lemma_slot_from(
        ws,
        c,
        vstd::utf8::encode_utf8(key),
        0,
        cap_of(ws, c),
    );
    if let Some(i) = slot_of(ws, c, key) {
        crate::layout::lemma_used_key(ws, c, i);
        lemma_not_locked(ws, handle_for(ws, c, key));
    }
}

/// The kind of a handle and the value behind it.
pub proof fn lemma_kind_of_value(ws: Seq<u64>, h: u64)
    requires
        wf(ws),
        live(ws, h),
    ensures
        container_kind(kind_of(h)) <==> value_at(ws, h).is_container(),
        kind_of(h) == value_at(ws, h).kind(),
{
    lemma_node(ws, off_of(h) as int);
}

proof fn lemma_put_adds(ws: Seq<u64>, c: int, a: Seq<char>, w: Value, s: Seq<char>)
    requires
        wf(ws),
        is_table(ws, c),
        !w.is_container(),
        scalar_put(ws, c, a, w).0 is Ok,
    ensures
        ({
            let xs = scalar_put(ws, c, a, w).1;
            &&& wf(xs)
            &&& is_table(xs, c)
            &&& forall|h: u64| #[trigger] live(ws, h) ==> live(xs, h)
            &&& handle_for(ws, c, s) != H_INVALID <==> slot_of(ws, c, s) is Some
            &&& handle_for(xs, c, s) != H_INVALID <==> slot_of(ws, c, s) is Some || s == a
            &&& count_of(xs, c) == count_of(ws, c) + if slot_of(ws, c, a) is None {
                1int
            } else {
                0
            }
        }),
{
    law_put_then_get(ws, c, a, w);
    law_put_keeps_the_rest(ws, c, a, w);
    law_put_counts(ws, c, a, w);
    let xs = scalar_put(ws, c, a, w).1;
    lemma_leads_to(ws, c, s);
    lemma_leads_to(xs, c, s);
    if s != a {
        assert(handle_for(xs, c, s) == handle_for(ws, c, s));
    }
}

/// A text read from an object or map.
pub proof fn lemma_text_read(ws: Seq<u64>, h: u64, s: String)
    requires
        wf(ws),
        live_table(ws, h),
    ensures
        handle_read(ws, h, JsKey::Text(s)) == Ok::<u64, ApiError>(
            handle_for(ws, off_of(h) as int, s@),
        ),
        !value_locked(ws, handle_for(ws, off_of(h) as int, s@)),
{
    lemma_on_table(ws, h);
    lemma_leads_to(ws, off_of(h) as int, s@);
}

/// Setting a text to a value.
proof fn lemma_value_stored(
    ws: Seq<u64>,
    h: u64,
    a: Seq<char>,
    value: JsInput,
    r: Result<(), ApiError>,
    xs: Seq<u64>,
    s: Seq<char>,
)
    requires
        wf(ws),
        live_table(ws, h),
        value_stored(ws, h, KeyName::Key(a), value, r, xs),
    ensures
        wf(xs),
        live_table(xs, h),
        r is Ok ==> ({
            let c = off_of(h) as int;
            let g = handle_for(xs, c, a);
            &&& g != H_INVALID
            &&& !container_kind(kind_of(g))
            &&& forall|out: JsOutput|
                out@ == shown(value_at(xs, g)) ==> #[trigger] comes_back(value, out)
            &&& handle_for(xs, c, s) != H_INVALID <==> handle_for(ws, c, s) != H_INVALID || s == a
            &&& count_of(xs, c) == count_of(ws, c) + if handle_for(ws, c, a) == H_INVALID {
                1int
            } else {
                0
            }
        }),
{
    reveal(value_stored);
    let c = off_of(h) as int;
    lemma_on_table(ws, h);
    let v = choose|v: Value| #[trigger]
        stored_as(value, v) && (r, xs) == value_set(ws, h, KeyName::Key(a), v);
    law_put_keeps_the_rest(ws, c, a, v);
    if r is Ok {
        law_put_then_get(ws, c, a, v);
        lemma_put_adds(ws, c, a, v, s);
        lemma_put_adds(ws, c, a, v, a);
        lemma_leads_to(xs, c, a);
        lemma_leads_to(ws, c, a);
        lemma_kind_of_value(xs, handle_for(xs, c, a));
        assert forall|out: JsOutput| out@ == shown(value_at(xs, handle_for(xs, c, a))) implies
            #[trigger] comes_back(value, out) by {
            lemma_comes_back(value, v, out);
        }
    }
}

/// Linking a container to a text.
proof fn lemma_node_stored(
    ws: Seq<u64>,
    h: u64,
    a: Seq<char>,
    child: u64,
    r: Result<(), ApiError>,
    xs: Seq<u64>,
)
    requires
        wf(ws),
        live_table(ws, h),
        live(ws, child),
        container_kind(kind_of(child)),
        node_stored(ws, h, KeyName::Key(a), child, r, xs),
    ensures
        wf(xs),
        live_table(xs, h),
        r is Ok ==> handle_for(xs, off_of(h) as int, a) == child && value_at(
            xs,
            child,
        ).is_container() && child != H_INVALID,
{
    reveal(node_stored);
    let c = off_of(h) as int;
    lemma_on_table(ws, h);
    law_link_then_get(ws, c, a, child);
    lemma_leads_to(xs, c, a);
    if r is Ok {
        lemma_kind_of_value(xs, child);
    }
}

/// Deleting a text.
proof fn lemma_removed(
    ws: Seq<u64>,
    h: u64,
    a: Seq<char>,
    r: Result<bool, ApiError>,
    xs: Seq<u64>,
)
    requires
        wf(ws),
        live_table(ws, h),
        removed(ws, h, KeyName::Key(a), r, xs),
    ensures
        wf(xs),
        live_table(xs, h),
        r == Ok::<bool, ApiError>(handle_for(ws, off_of(h) as int, a) != H_INVALID),
        handle_for(xs, off_of(h) as int, a) == H_INVALID,
        count_of(xs, off_of(h) as int) == count_of(ws, off_of(h) as int) - if r->Ok_0 {
            1int
        } else {
            0
        },
{
    reveal(removed);
    let c = off_of(h) as int;
    lemma_on_table(ws, h);
    law_delete(ws, c, a);
    lemma_leads_to(ws, c, a);
    lemma_leads_to(xs, c, a);
}

/// Counting up a text.
pub proof fn lemma_count(ws: Seq<u64>, h: u64, a: Seq<char>)
    requires
        wf(ws),
        live_table(ws, h),
    ensures
        ({
            let c = off_of(h) as int;
            let (r, xs) = counted(ws, c, a);
            let before = value_at(ws, handle_for(ws, c, a));
            let later = value_at(xs, handle_for(xs, c, a));
            &&& wf(xs)
            &&& live_table(xs, h)
            &&& r matches Ok(v) ==> later == Value::Int(v)
            &&& before matches Value::Int(u) ==> (r matches Ok(v) && v == if u < i64::MAX {
                u + 1
            } else {
                i64::MIN as int
            })
            &&& before !is Int ==> (r matches Ok(v) ==> v == 1)
            &&& r is Err ==> later == before
        }),
{
    let c = off_of(h) as int;
    lemma_on_table(ws, h);
    law_increment(ws, c, a);
    lemma_leads_to(ws, c, a);
    lemma_leads_to(counted(ws, c, a).1, c, a);
}

// Objects and maps.

/// What has been set under a text is what is there under that text: the very value that was handed
/// over. No container is there, and something is.
pub proof fn law_set_then_get<M: Memory>(
    node: NodeRef,
    a: String,
    b: String,
    value: JsInput,
    m: &mut M,
    n: &mut M,
    o: &mut M,
    p: &mut M,
    r: Result<(), ApiError>,
    got: Result<JsOutput, ApiError>,
    child: Result<Option<NodeRef>, ApiError>,
    there: Result<bool, ApiError>,
)
    requires
        on_table(*old(m), node),
        a@ == b@,
        set_gives(node, m, JsKey::Text(a), value, r),
        r is Ok,
        *old(n) == *final(m),
        get_value_gives(node, n, JsKey::Text(b), got),
        *old(o) == *final(n),
        get_node_gives(node, o, JsKey::Text(b), child),
        *old(p) == *final(o),
        has_gives(node, p, JsKey::Text(b), there),
        final(p).undisturbed(),
    ensures
        got matches Ok(out) && comes_back(value, out),
        child == Ok::<Option<NodeRef>, ApiError>(None),
        there == Ok::<bool, ApiError>(true),
{
    lemma_has(node, p, JsKey::Text(b), there);
    lemma_get_node(node, o, JsKey::Text(b), child);
    lemma_get_value(node, n, JsKey::Text(b), got);
    lemma_set(node, m, JsKey::Text(a), value, r);
    let ws = old(m).words();
    let xs = final(m).words();
    lemma_value_stored(ws, node.handle, a@, value, r, xs, a@);
    lemma_text_read(xs, node.handle, b);
}

// What a change leaves alone.

/// What is shown before and after is the same.
pub open spec fn same_result(
    v: Result<JsOutput, ApiError>,
    w: Result<JsOutput, ApiError>,
) -> bool {
    match (v, w) {
        (Ok(x), Ok(y)) => same_output(x, y),
        (Err(e), Err(f)) => e == f,
        _ => false,
    }
}

/// A container that the key belongs to stays: what is read of it is the same.
pub proof fn lemma_same_read(ws: Seq<u64>, xs: Seq<u64>, h: u64, key: JsKey)
    requires
        wf(ws),
        wf(xs),
        live(ws, h),
        live(xs, h),
        container_kind(kind_of(h)),
        kind_of(h) == KIND_ARRAY ==> same_list(ws, xs, off_of(h) as int),
        kind_of(h) != KIND_ARRAY ==> (key matches JsKey::Text(s) ==> handle_for(
            xs,
            off_of(h) as int,
            s@,
        ) == handle_for(ws, off_of(h) as int, s@)),
    ensures
        handle_read(xs, h, key) == handle_read(ws, h, key),
{
    let n = off_of(h) as int;
    lemma_not_locked(ws, h);
    lemma_not_locked(xs, h);
    if kind_of(h) == KIND_ARRAY {
        if let JsKey::Number(i) = key {
            if 0 <= i < cap_of(ws, n) {
                assert(item_at(xs, n, i as int) == item_at(ws, n, i as int));
            }
        }
    }
}

/// What is read leads to a node, or to nothing.
pub proof fn lemma_read_live(ws: Seq<u64>, h: u64, key: JsKey)
    requires
        wf(ws),
        live(ws, h),
        container_kind(kind_of(h)),
    ensures
        handle_read(ws, h, key) matches Ok(g) ==> g == H_INVALID || live(ws, g),
        handle_read(ws, h, key) matches Ok(g) ==> !value_locked(ws, g),
        handle_read(ws, h, key) is Err ==> handle_read(ws, h, key)->Err_0 !is Graph,
{
    let n = off_of(h) as int;
    lemma_node(ws, n);
    if kind_of(h) == KIND_ARRAY {
        if let JsKey::Number(i) = key {
            if 0 <= i < cap_of(ws, n) {
                let g = item_at(ws, n, i as int);
                if g != H_INVALID {
                    lemma_not_locked(ws, g);
                }
            }
        }
    } else {
        if let JsKey::Text(s) = key {
            lemma_leads_to(ws, n, s@);
        }
    }
}

/// Another key, or a key of another container.
pub open spec fn elsewhere(node: NodeRef, a: Seq<char>, other: NodeRef, key: JsKey) -> bool {
    other.handle != node.handle || (key matches JsKey::Text(b) ==> b@ != a)
}

/// What a change of one key of an object or map leaves alone.
proof fn lemma_elsewhere(
    ws: Seq<u64>,
    xs: Seq<u64>,
    node: NodeRef,
    a: Seq<char>,
    n: int,
    other: NodeRef,
    key: JsKey,
)
    requires
        wf(ws),
        live_table(ws, node.handle),
        others_kept(ws, xs, off_of(node.handle) as int, a, n),
        live(ws, other.handle),
        container_kind(kind_of(other.handle)),
        elsewhere(node, a, other, key),
    ensures
        wf(xs),
        live(xs, other.handle),
        handle_read(xs, other.handle, key) == handle_read(ws, other.handle, key),
        handle_read(ws, other.handle, key) matches Ok(g) ==> g == H_INVALID || off_of(g) != n
            ==> value_at(xs, g) == value_at(ws, g),
{
    let h = other.handle;
    let d = off_of(h) as int;
    let c = off_of(node.handle) as int;
    lemma_on_table(ws, node.handle);
    crate::value::law_handle_parts(h);
    crate::value::law_handle_parts(node.handle);
    if kind_of(h) == KIND_ARRAY {
        assert(is_list(ws, d));
    } else {
        assert(is_table(ws, d));
        if let JsKey::Text(b) = key {
            if d != c {
                assert(same_table(ws, xs, d));
                crate::tables::lemma_slot_from(
                    ws,
                    d,
                    vstd::utf8::encode_utf8(b@),
                    0,
                    cap_of(ws, d),
                );
            } else {
                assert(b@ != a);
            }
        }
    }
    lemma_same_read(ws, xs, h, key);
    lemma_read_live(ws, h, key);
}

/// What is read of a container is the same as it was. The node behind `g0` may have another value.
pub open spec fn reads_alike(ws: Seq<u64>, xs: Seq<u64>, h: u64, key: JsKey, g0: u64) -> bool {
    &&& handle_read(xs, h, key) == handle_read(ws, h, key)
    &&& handle_read(ws, h, key) matches Ok(g) ==> !value_locked(ws, g) && !value_locked(xs, g) && (
    g == H_INVALID || g != g0 ==> value_at(xs, g) == value_at(ws, g))
}

/// A change of one key of an object or map leaves all other keys alone, here and elsewhere.
pub proof fn lemma_reads_alike(
    ws: Seq<u64>,
    xs: Seq<u64>,
    node: NodeRef,
    a: Seq<char>,
    n: int,
    other: NodeRef,
    key: JsKey,
)
    requires
        wf(ws),
        live_table(ws, node.handle),
        others_kept(ws, xs, off_of(node.handle) as int, a, n),
        n == -1 || n == off_of(handle_for(ws, off_of(node.handle) as int, a)),
        live(ws, other.handle),
        container_kind(kind_of(other.handle)),
        elsewhere(node, a, other, key),
    ensures
        reads_alike(
            ws,
            xs,
            other.handle,
            key,
            if n == -1 {
                H_INVALID
            } else {
                handle_for(ws, off_of(node.handle) as int, a)
            },
        ),
{
    let c = off_of(node.handle) as int;
    lemma_on_table(ws, node.handle);
    lemma_elsewhere(ws, xs, node, a, n, other, key);
    lemma_read_live(ws, other.handle, key);
    lemma_read_live(xs, other.handle, key);
    lemma_same_node(ws, handle_for(ws, c, a), handle_read(ws, other.handle, key));
    lemma_leads_to(ws, c, a);
}

/// What setting a text to a value leaves alone.
proof fn lemma_stored_elsewhere(
    ws: Seq<u64>,
    r: Result<(), ApiError>,
    xs: Seq<u64>,
    node: NodeRef,
    a: Seq<char>,
    value: JsInput,
    other: NodeRef,
    key: JsKey,
)
    requires
        wf(ws),
        live_table(ws, node.handle),
        value_stored(ws, node.handle, KeyName::Key(a), value, r, xs),
        live(ws, other.handle),
        container_kind(kind_of(other.handle)),
        elsewhere(node, a, other, key),
    ensures
        reads_alike(
            ws,
            xs,
            other.handle,
            key,
            handle_for(ws, off_of(node.handle) as int, a),
        ),
{
    reveal(value_stored);
    let c = off_of(node.handle) as int;
    lemma_on_table(ws, node.handle);
    let w = choose|w: Value| #[trigger]
        stored_as(value, w) && (r, xs) == value_set(ws, node.handle, KeyName::Key(a), w);
    law_put_keeps_the_rest(ws, c, a, w);
    lemma_reads_alike(ws, xs, node, a, overwritten(ws, c, a, w), other, key);
}

/// What linking a container to a text leaves alone.
proof fn lemma_linked_elsewhere(
    ws: Seq<u64>,
    r: Result<(), ApiError>,
    xs: Seq<u64>,
    node: NodeRef,
    a: Seq<char>,
    child: u64,
    other: NodeRef,
    key: JsKey,
)
    requires
        wf(ws),
        live_table(ws, node.handle),
        live(ws, child),
        container_kind(kind_of(child)),
        node_stored(ws, node.handle, KeyName::Key(a), child, r, xs),
        live(ws, other.handle),
        container_kind(kind_of(other.handle)),
        elsewhere(node, a, other, key),
    ensures
        reads_alike(ws, xs, other.handle, key, H_INVALID),
{
    reveal(node_stored);
    lemma_on_table(ws, node.handle);
    law_link_then_get(ws, off_of(node.handle) as int, a, child);
    lemma_reads_alike(ws, xs, node, a, -1, other, key);
}

/// What deleting a text leaves alone.
proof fn lemma_removed_elsewhere(
    ws: Seq<u64>,
    r: Result<bool, ApiError>,
    xs: Seq<u64>,
    node: NodeRef,
    a: Seq<char>,
    other: NodeRef,
    key: JsKey,
)
    requires
        wf(ws),
        live_table(ws, node.handle),
        removed(ws, node.handle, KeyName::Key(a), r, xs),
        live(ws, other.handle),
        container_kind(kind_of(other.handle)),
        elsewhere(node, a, other, key),
    ensures
        reads_alike(ws, xs, other.handle, key, H_INVALID),
{
    reveal(removed);
    lemma_on_table(ws, node.handle);
    law_delete(ws, off_of(node.handle) as int, a);
    if r == Ok::<bool, ApiError>(true) {
        lemma_reads_alike(ws, xs, node, a, -1, other, key);
    } else {
        lemma_read_live(ws, other.handle, key);
    }
}

/// What counting up a text leaves alone.
proof fn lemma_counted_elsewhere(
    ws: Seq<u64>,
    node: NodeRef,
    a: Seq<char>,
    other: NodeRef,
    key: JsKey,
)
    requires
        wf(ws),
        live_table(ws, node.handle),
        live(ws, other.handle),
        container_kind(kind_of(other.handle)),
        elsewhere(node, a, other, key),
    ensures
        reads_alike(
            ws,
            counted(ws, off_of(node.handle) as int, a).1,
            other.handle,
            key,
            handle_for(ws, off_of(node.handle) as int, a),
        ),
{
    let c = off_of(node.handle) as int;
    lemma_on_table(ws, node.handle);
    law_increment(ws, c, a);
    let n = if value_for(ws, c, a) is Int {
        off_of(handle_for(ws, c, a)) as int
    } else {
        -1
    };
    lemma_reads_alike(ws, counted(ws, c, a).1, node, a, n, other, key);
}

/// What is shown alike is the same.
pub proof fn lemma_same_shown(x: JsOutput, y: JsOutput)
    ensures
        x@ == y@ ==> same_output(x, y),
{
}

/// Setting a text to a value changes no other key of the object or map, and no key of any other
/// container: each leads to the node that it led to.
pub proof fn law_set_keeps_other_keys<M: Memory>(
    node: NodeRef,
    a: String,
    value: JsInput,
    other: NodeRef,
    key: JsKey,
    l: &mut M,
    m: &mut M,
    n: &mut M,
    before: Result<u64, ApiError>,
    r: Result<(), ApiError>,
    later: Result<u64, ApiError>,
)
    requires
        on_table(*old(l), node),
        live(old(l).words(), other.handle),
        container_kind(kind_of(other.handle)),
        elsewhere(node, a@, other, key),
        read_handle_gives(other, l, key, before),
        *old(m) == *final(l),
        set_gives(node, m, JsKey::Text(a), value, r),
        *old(n) == *final(m),
        read_handle_gives(other, n, key, later),
        final(n).undisturbed(),
    ensures
        later == before,
{
    lemma_read_handle(other, n, key, later);
    lemma_set(node, m, JsKey::Text(a), value, r);
    lemma_read_handle(other, l, key, before);
    let ws = old(m).words();
    let xs = final(m).words();
    if value !is Other {
        lemma_stored_elsewhere(ws, r, xs, node, a@, value, other, key);
    }
}

/// Setting a text to a value changes no value under any other key: it shows what it showed, unless
/// the two keys lead to one node.
pub proof fn law_set_keeps_other_values<M: Memory>(
    node: NodeRef,
    a: String,
    value: JsInput,
    other: NodeRef,
    key: JsKey,
    l: &mut M,
    m: &mut M,
    n: &mut M,
    before: Result<JsOutput, ApiError>,
    r: Result<(), ApiError>,
    later: Result<JsOutput, ApiError>,
)
    requires
        on_table(*old(l), node),
        live(old(l).words(), other.handle),
        container_kind(kind_of(other.handle)),
        elsewhere(node, a@, other, key),
        apart(old(l).words(), node, JsKey::Text(a), other, key),
        get_value_gives(other, l, key, before),
        *old(m) == *final(l),
        set_gives(node, m, JsKey::Text(a), value, r),
        *old(n) == *final(m),
        get_value_gives(other, n, key, later),
        final(n).undisturbed(),
    ensures
        same_result(before, later),
{
    lemma_get_value(other, n, key, later);
    lemma_set(node, m, JsKey::Text(a), value, r);
    lemma_get_value(other, l, key, before);
    let ws = old(m).words();
    let xs = final(m).words();
    if value !is Other {
        lemma_stored_elsewhere(ws, r, xs, node, a@, value, other, key);
        lemma_text_read(ws, node.handle, a);
    } else {
        lemma_read_live(ws, other.handle, key);
    }
    lemma_same_shown(before->Ok_0, later->Ok_0);
}

/// The two keys do not lead to one node.
pub open spec fn apart(
    ws: Seq<u64>,
    node: NodeRef,
    a: JsKey,
    other: NodeRef,
    b: JsKey,
) -> bool {
    let g = handle_read(ws, node.handle, a);
    g is Err || g == Ok::<u64, ApiError>(H_INVALID) || g != handle_read(ws, other.handle, b)
}

/// Two nodes at one place are one node.
proof fn lemma_same_node(ws: Seq<u64>, g: u64, r: Result<u64, ApiError>)
    ensures
        r matches Ok(h) ==> live(ws, g) && live(ws, h) && off_of(g) == off_of(h) ==> g == h,
{
    if let Ok(h) = r {
        crate::value::law_handle_parts(g);
        crate::value::law_handle_parts(h);
    }
}

// Keys, how many there are, and whether one is there.

/// The text is listed.
pub open spec fn lists(list: Seq<String>, s: Seq<char>) -> bool {
    exists|i: int| 0 <= i < list.len() && (#[trigger] list[i])@ == s
}

/// A list of texts, and the texts in it.
pub proof fn lemma_listed(xs: Seq<String>, s: Seq<char>)
    ensures
        texts(xs).len() == xs.len(),
        lists(xs, s) <==> texts(xs).contains(s),
        texts(xs).no_duplicates() ==> forall|i: int, j: int|
            0 <= i < j < xs.len() ==> (#[trigger] xs[i])@ != (#[trigger] xs[j])@,
{
    let keys = texts(xs);
    if keys.contains(s) {
        let i = choose|i: int| 0 <= i < keys.len() && keys[i] == s;
        assert(xs[i]@ == s);
    }
    if lists(xs, s) {
        let i = choose|i: int| 0 <= i < xs.len() && (#[trigger] xs[i])@ == s;
        assert(keys[i] == s);
    }
    if keys.no_duplicates() {
        assert forall|i: int, j: int| 0 <= i < j < xs.len() implies (#[trigger] xs[i])@ != (
        #[trigger] xs[j])@ by {
            assert(keys[i] != keys[j]);
        }
    }
}

/// The keys that are listed are those that are there, each of them once, and their number is the
/// length.
pub proof fn law_keys_are_those_that_are_there<M: Memory>(
    node: NodeRef,
    s: String,
    l: &mut M,
    m: &mut M,
    n: &mut M,
    list: Result<Vec<String>, ApiError>,
    there: Result<bool, ApiError>,
    len: u32,
)
    requires
        on_table(*old(l), node),
        keys_gives(node, l, list),
        *old(m) == *final(l),
        has_gives(node, m, JsKey::Text(s), there),
        *old(n) == *final(m),
        length_gives(node, n, len),
        final(n).undisturbed(),
    ensures
        list is Ok,
        there is Ok,
        there->Ok_0 <==> lists(list->Ok_0@, s@),
        len == list->Ok_0@.len(),
        forall|i: int, j: int|
            0 <= i < j < list->Ok_0@.len() ==> (#[trigger] list->Ok_0@[i])@ != (
            #[trigger] list->Ok_0@[j])@,
{
    lemma_length(node, n, len);
    lemma_has(node, m, JsKey::Text(s), there);
    lemma_keys(node, l, list);
    let ws = old(l).words();
    let c = off_of(node.handle) as int;
    lemma_on_table(ws, node.handle);
    law_keys_are_listed(ws, c, s@);
    lemma_leads_to(ws, c, s@);
    lemma_listed(list->Ok_0@, s@);
}

/// A text that has been set is there from then on; every other text is there if and only if it was.
pub proof fn law_set_adds_the_key<M: Memory>(
    node: NodeRef,
    a: String,
    value: JsInput,
    s: String,
    l: &mut M,
    m: &mut M,
    n: &mut M,
    had: Result<bool, ApiError>,
    r: Result<(), ApiError>,
    has: Result<bool, ApiError>,
)
    requires
        on_table(*old(l), node),
        has_gives(node, l, JsKey::Text(s), had),
        *old(m) == *final(l),
        set_gives(node, m, JsKey::Text(a), value, r),
        r is Ok,
        *old(n) == *final(m),
        has_gives(node, n, JsKey::Text(s), has),
        final(n).undisturbed(),
    ensures
        had is Ok,
        has is Ok,
        has->Ok_0 <==> had->Ok_0 || s@ == a@,
{
    lemma_has(node, n, JsKey::Text(s), has);
    lemma_set(node, m, JsKey::Text(a), value, r);
    lemma_has(node, l, JsKey::Text(s), had);
    let ws = old(m).words();
    let xs = final(m).words();
    lemma_value_stored(ws, node.handle, a@, value, r, xs, s@);
    lemma_text_read(ws, node.handle, s);
    lemma_text_read(xs, node.handle, s);
}

/// A text that has been set is among the keys that are listed.
pub proof fn law_set_lists_the_key<M: Memory>(
    node: NodeRef,
    a: String,
    value: JsInput,
    m: &mut M,
    n: &mut M,
    r: Result<(), ApiError>,
    list: Result<Vec<String>, ApiError>,
)
    requires
        on_table(*old(m), node),
        set_gives(node, m, JsKey::Text(a), value, r),
        r is Ok,
        *old(n) == *final(m),
        keys_gives(node, n, list),
        final(n).undisturbed(),
    ensures
        list is Ok,
        lists(list->Ok_0@, a@),
{
    lemma_keys(node, n, list);
    lemma_set(node, m, JsKey::Text(a), value, r);
    let ws = old(m).words();
    let xs = final(m).words();
    let c = off_of(node.handle) as int;
    lemma_value_stored(ws, node.handle, a@, value, r, xs, a@);
    lemma_on_table(xs, node.handle);
    lemma_leads_to(xs, c, a@);
    law_keys_are_listed(xs, c, a@);
    lemma_listed(list->Ok_0@, a@);
}

/// Setting a text makes the length one greater if the text was not there, and leaves it otherwise.
pub proof fn law_set_counts_the_key<M: Memory>(
    node: NodeRef,
    a: String,
    value: JsInput,
    k: &mut M,
    l: &mut M,
    m: &mut M,
    n: &mut M,
    had: Result<bool, ApiError>,
    len: u32,
    r: Result<(), ApiError>,
    new_len: u32,
)
    requires
        on_table(*old(k), node),
        has_gives(node, k, JsKey::Text(a), had),
        *old(l) == *final(k),
        length_gives(node, l, len),
        *old(m) == *final(l),
        set_gives(node, m, JsKey::Text(a), value, r),
        r is Ok,
        *old(n) == *final(m),
        length_gives(node, n, new_len),
        final(n).undisturbed(),
    ensures
        had == Ok::<bool, ApiError>(true) ==> new_len == len,
        had == Ok::<bool, ApiError>(false) ==> new_len == len + 1,
        had is Ok,
{
    lemma_length(node, n, new_len);
    lemma_set(node, m, JsKey::Text(a), value, r);
    lemma_length(node, l, len);
    lemma_has(node, k, JsKey::Text(a), had);
    let ws = old(m).words();
    let xs = final(m).words();
    lemma_value_stored(ws, node.handle, a@, value, r, xs, a@);
    lemma_text_read(ws, node.handle, a);
    lemma_on_table(ws, node.handle);
    lemma_on_table(xs, node.handle);
}

// Links.

/// A container that has been linked to a text is the very node that is there under that text; it
/// is no value.
pub proof fn law_set_node_then_get<M: Memory>(
    node: NodeRef,
    a: String,
    b: String,
    child: NodeRef,
    m: &mut M,
    n: &mut M,
    o: &mut M,
    r: Result<(), ApiError>,
    got: Result<Option<NodeRef>, ApiError>,
    shows: Result<JsOutput, ApiError>,
)
    requires
        on_table(*old(m), node),
        live(old(m).words(), child.handle),
        container_kind(kind_of(child.handle)),
        a@ == b@,
        set_node_gives(node, m, JsKey::Text(a), child, r),
        r is Ok,
        *old(n) == *final(m),
        get_node_gives(node, n, JsKey::Text(b), got),
        *old(o) == *final(n),
        get_value_gives(node, o, JsKey::Text(b), shows),
        final(o).undisturbed(),
    ensures
        got matches Ok(Some(g)) && g.handle == child.handle && g.base == node.base,
        shows matches Ok(JsOutput::Null),
{
    lemma_get_value(node, o, JsKey::Text(b), shows);
    lemma_get_node(node, n, JsKey::Text(b), got);
    lemma_set_node(node, m, JsKey::Text(a), child, r);
    let ws = old(m).words();
    let xs = final(m).words();
    lemma_node_stored(ws, node.handle, a@, child.handle, r, xs);
    lemma_text_read(xs, node.handle, b);
}

/// Linking a container to a text changes no other key of the object or map, and no key of any other
/// container; and no value at all.
pub proof fn law_set_node_changes_nothing_else<M: Memory>(
    node: NodeRef,
    a: String,
    child: NodeRef,
    other: NodeRef,
    key: JsKey,
    l: &mut M,
    m: &mut M,
    n: &mut M,
    before: Result<JsOutput, ApiError>,
    r: Result<(), ApiError>,
    later: Result<JsOutput, ApiError>,
)
    requires
        on_table(*old(l), node),
        live(old(l).words(), child.handle),
        container_kind(kind_of(child.handle)),
        live(old(l).words(), other.handle),
        container_kind(kind_of(other.handle)),
        elsewhere(node, a@, other, key),
        get_value_gives(other, l, key, before),
        *old(m) == *final(l),
        set_node_gives(node, m, JsKey::Text(a), child, r),
        *old(n) == *final(m),
        get_value_gives(other, n, key, later),
        final(n).undisturbed(),
    ensures
        same_result(before, later),
        handle_read(final(m).words(), other.handle, key) == handle_read(
            old(m).words(),
            other.handle,
            key,
        ),
{
    lemma_get_value(other, n, key, later);
    lemma_set_node(node, m, JsKey::Text(a), child, r);
    lemma_get_value(other, l, key, before);
    let ws = old(m).words();
    let xs = final(m).words();
    lemma_linked_elsewhere(ws, r, xs, node, a@, child.handle, other, key);
    lemma_same_shown(before->Ok_0, later->Ok_0);
}

// Deleting.

/// Deleting a text says whether it was there. Afterwards it is not: no value is under it, and no
/// container. The length has shrunk by one if it was there.
pub proof fn law_deleted_is_gone<M: Memory>(
    node: NodeRef,
    a: String,
    k: &mut M,
    l: &mut M,
    m: &mut M,
    n: &mut M,
    o: &mut M,
    p: &mut M,
    had: Result<bool, ApiError>,
    len: u32,
    r: Result<bool, ApiError>,
    has: Result<bool, ApiError>,
    shows: Result<JsOutput, ApiError>,
    new_len: u32,
)
    requires
        on_table(*old(k), node),
        has_gives(node, k, JsKey::Text(a), had),
        *old(l) == *final(k),
        length_gives(node, l, len),
        *old(m) == *final(l),
        delete_gives(node, m, JsKey::Text(a), r),
        *old(n) == *final(m),
        has_gives(node, n, JsKey::Text(a), has),
        *old(o) == *final(n),
        get_value_gives(node, o, JsKey::Text(a), shows),
        *old(p) == *final(o),
        length_gives(node, p, new_len),
        final(p).undisturbed(),
    ensures
        r is Ok,
        had == r,
        has == Ok::<bool, ApiError>(false),
        shows matches Ok(JsOutput::Null),
        new_len == if r->Ok_0 {
            len - 1
        } else {
            len as int
        },
{
    lemma_length(node, p, new_len);
    lemma_get_value(node, o, JsKey::Text(a), shows);
    lemma_has(node, n, JsKey::Text(a), has);
    lemma_delete(node, m, JsKey::Text(a), r);
    lemma_length(node, l, len);
    lemma_has(node, k, JsKey::Text(a), had);
    let ws = old(m).words();
    let xs = final(m).words();
    lemma_removed(ws, node.handle, a@, r, xs);
    lemma_text_read(ws, node.handle, a);
    lemma_text_read(xs, node.handle, a);
    lemma_on_table(ws, node.handle);
    lemma_on_table(xs, node.handle);
}

/// Deleting a text changes no other key of the object or map, and no key of any other container;
/// and no value at all.
pub proof fn law_delete_changes_nothing_else<M: Memory>(
    node: NodeRef,
    a: String,
    other: NodeRef,
    key: JsKey,
    l: &mut M,
    m: &mut M,
    n: &mut M,
    before: Result<JsOutput, ApiError>,
    r: Result<bool, ApiError>,
    later: Result<JsOutput, ApiError>,
)
    requires
        on_table(*old(l), node),
        live(old(l).words(), other.handle),
        container_kind(kind_of(other.handle)),
        elsewhere(node, a@, other, key),
        get_value_gives(other, l, key, before),
        *old(m) == *final(l),
        delete_gives(node, m, JsKey::Text(a), r),
        *old(n) == *final(m),
        get_value_gives(other, n, key, later),
        final(n).undisturbed(),
    ensures
        same_result(before, later),
        handle_read(final(m).words(), other.handle, key) == handle_read(
            old(m).words(),
            other.handle,
            key,
        ),
{
    lemma_get_value(other, n, key, later);
    lemma_delete(node, m, JsKey::Text(a), r);
    lemma_get_value(other, l, key, before);
    let ws = old(m).words();
    let xs = final(m).words();
    lemma_removed_elsewhere(ws, r, xs, node, a@, other, key);
    lemma_same_shown(before->Ok_0, later->Ok_0);
}

// Counting.

/// An increment gives one more than the number that was there, or one if there was no number, and
/// leaves what it gives.
pub proof fn law_increment_counts_by_one<M: Memory>(
    node: NodeRef,
    a: String,
    l: &mut M,
    m: &mut M,
    n: &mut M,
    before: Result<JsOutput, ApiError>,
    r: Result<i64, ApiError>,
    later: Result<JsOutput, ApiError>,
)
    requires
        on_table(*old(l), node),
        get_value_gives(node, l, JsKey::Text(a), before),
        *old(m) == *final(l),
        increment_gives(node, m, JsKey::Text(a), r),
        *old(n) == *final(m),
        get_value_gives(node, n, JsKey::Text(a), later),
        final(n).undisturbed(),
    ensures
        before is Ok,
        match before->Ok_0 {
            JsOutput::Int(u) => r matches Ok(v) && v == if u < i64::MAX {
                u + 1
            } else {
                i64::MIN as int
            },
            _ => r matches Ok(v) ==> v == 1,
        },
        r matches Ok(v) ==> (later matches Ok(JsOutput::Int(w)) && w == v),
        r is Err ==> same_result(before, later),
{
    lemma_get_value(node, n, JsKey::Text(a), later);
    lemma_increment(node, m, JsKey::Text(a), r);
    lemma_get_value(node, l, JsKey::Text(a), before);
    let ws = old(m).words();
    let xs = final(m).words();
    lemma_count(ws, node.handle, a@);
    lemma_text_read(ws, node.handle, a);
    lemma_text_read(xs, node.handle, a);
    lemma_same_shown(before->Ok_0, later->Ok_0);
}

/// An increment changes no other key of the object or map, and no key of any other container: it
/// shows what it showed, unless the two keys lead to one node.
pub proof fn law_increment_changes_nothing_else<M: Memory>(
    node: NodeRef,
    a: String,
    other: NodeRef,
    key: JsKey,
    l: &mut M,
    m: &mut M,
    n: &mut M,
    before: Result<JsOutput, ApiError>,
    r: Result<i64, ApiError>,
    later: Result<JsOutput, ApiError>,
)
    requires
        on_table(*old(l), node),
        live(old(l).words(), other.handle),
        container_kind(kind_of(other.handle)),
        elsewhere(node, a@, other, key),
        apart(old(l).words(), node, JsKey::Text(a), other, key),
        get_value_gives(other, l, key, before),
        *old(m) == *final(l),
        increment_gives(node, m, JsKey::Text(a), r),
        *old(n) == *final(m),
        get_value_gives(other, n, key, later),
        final(n).undisturbed(),
    ensures
        same_result(before, later),
        handle_read(final(m).words(), other.handle, key) == handle_read(
            old(m).words(),
            other.handle,
            key,
        ),
{
    lemma_get_value(other, n, key, later);
    lemma_increment(node, m, JsKey::Text(a), r);
    lemma_get_value(other, l, key, before);
    let ws = old(m).words();
    let xs = final(m).words();
    lemma_counted_elsewhere(ws, node, a@, other, key);
    lemma_text_read(ws, node.handle, a);
    lemma_same_shown(before->Ok_0, later->Ok_0);
}

// The order of keys.

/// Where the text was listed, the list stays as it was; else the text is the new last one.
pub open spec fn listed_last(before: Seq<String>, a: Seq<char>, later: Seq<String>) -> bool {
    &&& forall|i: int| 0 <= i < before.len() ==> (#[trigger] later[i])@ == before[i]@
    &&& lists(before, a) ==> later.len() == before.len()
    &&& !lists(before, a) ==> later.len() == before.len() + 1 && later.last()@ == a
}

proof fn lemma_listed_last(before: Seq<String>, a: Seq<char>, later: Seq<String>)
    requires
        texts(later) == after_put(texts(before), a, true),
    ensures
        listed_last(before, a, later),
{
    lemma_listed(before, a);
    assert(texts(later).len() == later.len());
    assert forall|i: int| 0 <= i < before.len() implies (#[trigger] later[i])@ == before[i]@ by {
        assert(texts(later)[i] == texts(before)[i]);
    }
    if !lists(before, a) {
        assert(texts(later).last() == a);
    }
}

/// A text that has been set to a value is listed behind all others if it is new, and otherwise
/// where it was, as long as nothing has been deleted.
pub proof fn law_set_keeps_the_order<M: Memory>(
    node: NodeRef,
    a: String,
    value: JsInput,
    l: &mut M,
    m: &mut M,
    n: &mut M,
    before: Result<Vec<String>, ApiError>,
    r: Result<(), ApiError>,
    later: Result<Vec<String>, ApiError>,
)
    requires
        on_table(*old(l), node),
        packed(old(l).words(), off_of(node.handle) as int),
        keys_gives(node, l, before),
        *old(m) == *final(l),
        set_gives(node, m, JsKey::Text(a), value, r),
        r is Ok,
        *old(n) == *final(m),
        keys_gives(node, n, later),
        final(n).undisturbed(),
    ensures
        before is Ok,
        later is Ok,
        listed_last(before->Ok_0@, a@, later->Ok_0@),
        packed(final(m).words(), off_of(node.handle) as int),
{
    lemma_keys(node, n, later);
    lemma_set(node, m, JsKey::Text(a), value, r);
    lemma_keys(node, l, before);
    let ws = old(m).words();
    let xs = final(m).words();
    let c = off_of(node.handle) as int;
    lemma_on_table(ws, node.handle);
    reveal(value_stored);
    let v = choose|v: Value| #[trigger]
        stored_as(value, v) && (r, xs) == value_set(ws, node.handle, KeyName::Key(a@), v);
    law_put_keeps_the_order(ws, c, a@, Put::Scalar(v));
    lemma_node(xs, c);
    lemma_listed_last(before->Ok_0@, a@, later->Ok_0@);
}

/// A text that a container has been linked to is listed behind all others if it is new, and
/// otherwise where it was, as long as nothing has been deleted.
pub proof fn law_set_node_keeps_the_order<M: Memory>(
    node: NodeRef,
    a: String,
    child: NodeRef,
    l: &mut M,
    m: &mut M,
    n: &mut M,
    before: Result<Vec<String>, ApiError>,
    r: Result<(), ApiError>,
    later: Result<Vec<String>, ApiError>,
)
    requires
        on_table(*old(l), node),
        packed(old(l).words(), off_of(node.handle) as int),
        live(old(l).words(), child.handle),
        container_kind(kind_of(child.handle)),
        keys_gives(node, l, before),
        *old(m) == *final(l),
        set_node_gives(node, m, JsKey::Text(a), child, r),
        r is Ok,
        *old(n) == *final(m),
        keys_gives(node, n, later),
        final(n).undisturbed(),
    ensures
        before is Ok,
        later is Ok,
        listed_last(before->Ok_0@, a@, later->Ok_0@),
        packed(final(m).words(), off_of(node.handle) as int),
{
    lemma_keys(node, n, later);
    lemma_set_node(node, m, JsKey::Text(a), child, r);
    lemma_keys(node, l, before);
    let ws = old(m).words();
    let xs = final(m).words();
    let c = off_of(node.handle) as int;
    lemma_on_table(ws, node.handle);
    reveal(node_stored);
    crate::tables::lemma_container_not_a_key(ws, child.handle);
    law_put_keeps_the_order(ws, c, a@, Put::Node(child.handle));
    lemma_node(xs, c);
    lemma_listed_last(before->Ok_0@, a@, later->Ok_0@);
}

/// A text that has been counted up is listed behind all others if it is new, and otherwise where it
/// was, as long as nothing has been deleted.
pub proof fn law_increment_keeps_the_order<M: Memory>(
    node: NodeRef,
    a: String,
    l: &mut M,
    m: &mut M,
    n: &mut M,
    before: Result<Vec<String>, ApiError>,
    r: Result<i64, ApiError>,
    later: Result<Vec<String>, ApiError>,
)
    requires
        on_table(*old(l), node),
        packed(old(l).words(), off_of(node.handle) as int),
        keys_gives(node, l, before),
        *old(m) == *final(l),
        increment_gives(node, m, JsKey::Text(a), r),
        r is Ok,
        *old(n) == *final(m),
        keys_gives(node, n, later),
        final(n).undisturbed(),
    ensures
        before is Ok,
        later is Ok,
        listed_last(before->Ok_0@, a@, later->Ok_0@),
        packed(final(m).words(), off_of(node.handle) as int),
{
    lemma_keys(node, n, later);
    lemma_increment(node, m, JsKey::Text(a), r);
    lemma_keys(node, l, before);
    let ws = old(m).words();
    let xs = final(m).words();
    let c = off_of(node.handle) as int;
    lemma_on_table(ws, node.handle);
    law_put_keeps_the_order(ws, c, a@, Put::Count);
    lemma_node(xs, c);
    lemma_listed_last(before->Ok_0@, a@, later->Ok_0@);
}

} // verus!
