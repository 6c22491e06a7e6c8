//! New containers and the root, call after call.
//!
//! The calls are on a region that is in order and that nobody else changes meanwhile.
use crate::arena::region_header;
use crate::frames::{same_list, same_table};
use crate::js::{stored_as, ApiError, JsInput, JsKey, JsOutput, KeyName};
use crate::laws::{
    law_delete, law_increment, law_link_then_get, law_new_container, law_put_keeps_the_rest,
};
use crate::layout::{
    cap_of, count_of, is_list, is_table, lemma_node, lemma_with_container, live, wf,
};
use crate::limits::room;
use crate::memory::Memory;
use crate::node::value_at;
use crate::noderef::{value_set, NodeRef};
use crate::region::{container_made, SharedRegion};
use crate::root::lemma_rooted;
use crate::steps::{
    delete_gives, get_value_gives, has_gives, increment_gives, keys_gives, lemma_delete,
    lemma_get_value, lemma_has, lemma_increment, lemma_keys, lemma_length, lemma_set,
    lemma_set_node, length_gives, node_stored, removed, set_gives, set_node_gives, value_stored,
};
use crate::tables::{handle_for, item_for, rooted, slot_of};
use crate::usage::{
    lemma_on_table, lemma_read_live, lemma_same_read, lemma_same_shown, lemma_text_read, on_table,
    reads_alike, same_result,
};
use crate::value::{container_kind, kind_of, off_of, Value, H_INVALID, KIND_ARRAY};
use vstd::prelude::*;

verus! {

/// Creating a container of kind `tag` gives `r` and leaves `xs`.
#[verifier::opaque]
pub open spec fn container_added(
    ws: Seq<u64>,
    base: u64,
    tag: u8,
    cap: u32,
    r: Result<NodeRef, ApiError>,
    xs: Seq<u64>,
) -> bool {
    (r, xs) == container_made(ws, base, tag, cap)
}

/// A call of `create_object` gives `r`.
#[verifier::opaque]
pub open spec fn create_object_gives<M: Memory>(
    region: SharedRegion,
    m: &mut M,
    cap: u32,
    r: Result<NodeRef, ApiError>,
) -> bool {
    call_ensures(SharedRegion::create_object::<M>, (&region, m, cap), r)
}

proof fn lemma_create_object<M: Memory>(
    region: SharedRegion,
    m: &mut M,
    cap: u32,
    r: Result<NodeRef, ApiError>,
)
    requires
        create_object_gives(region, m, cap, r),
        final(m).undisturbed(),
    ensures
        old(m).undisturbed(),
        container_added(old(m).words(), region.base, 1, cap, r, final(m).words()),
{
    reveal(create_object_gives);
    reveal(container_added);
}

/// A call of `create_array` gives `r`.
#[verifier::opaque]
pub open spec fn create_array_gives<M: Memory>(
    region: SharedRegion,
    m: &mut M,
    cap: u32,
    r: Result<NodeRef, ApiError>,
) -> bool {
    call_ensures(SharedRegion::create_array::<M>, (&region, m, cap), r)
}

proof fn lemma_create_array<M: Memory>(
    region: SharedRegion,
    m: &mut M,
    cap: u32,
    r: Result<NodeRef, ApiError>,
)
    requires
        create_array_gives(region, m, cap, r),
        final(m).undisturbed(),
    ensures
        old(m).undisturbed(),
        container_added(old(m).words(), region.base, 2, cap, r, final(m).words()),
{
    reveal(create_array_gives);
    reveal(container_added);
}

/// A call of `create_map` gives `r`.
#[verifier::opaque]
pub open spec fn create_map_gives<M: Memory>(
    region: SharedRegion,
    m: &mut M,
    cap: u32,
    r: Result<NodeRef, ApiError>,
) -> bool {
    call_ensures(SharedRegion::create_map::<M>, (&region, m, cap), r)
}

proof fn lemma_create_map<M: Memory>(
    region: SharedRegion,
    m: &mut M,
    cap: u32,
    r: Result<NodeRef, ApiError>,
)
    requires
        create_map_gives(region, m, cap, r),
        final(m).undisturbed(),
    ensures
        old(m).undisturbed(),
        container_added(old(m).words(), region.base, 3, cap, r, final(m).words()),
{
    reveal(create_map_gives);
    reveal(container_added);
}

/// A call of `root` gives `r`.
#[verifier::opaque]
pub open spec fn root_gives<M: Memory>(
    region: SharedRegion,
    m: &mut M,
    r: Result<NodeRef, ApiError>,
) -> bool {
    call_ensures(SharedRegion::root::<M>, (&region, m), r)
}

proof fn lemma_root<M: Memory>(region: SharedRegion, m: &mut M, r: Result<NodeRef, ApiError>)
    requires
        root_gives(region, m, r),
        final(m).undisturbed(),
    ensures
        old(m).undisturbed(),
        wf(old(m).words()) ==> ({
            let (root, xs) = rooted(old(m).words());
            &&& final(m).words() == xs
            &&& root matches Some(h) ==> (r matches Ok(node) && node.base == region.base
                && node.handle == h)
            &&& root is None ==> r == Err::<NodeRef, ApiError>(ApiError::RootFull)
        }),
{
    reveal(root_gives);
}

/// The number of places that a container gets: as many as asked for, sixteen if none.
pub open spec fn places(cap: u32) -> int {
    if cap == 0 {
        16
    } else {
        cap as int
    }
}

/// How many bytes a container with so many places takes up: each is one word in an array, two in
/// an object or map.
pub open spec fn container_bytes(array: bool, cap: u32) -> int {
    if array {
        40 + 8 * places(cap)
    } else {
        40 + 16 * places(cap)
    }
}

proof fn lemma_added(
    ws: Seq<u64>,
    base: u64,
    tag: u8,
    cap: u32,
    r: Result<NodeRef, ApiError>,
    xs: Seq<u64>,
)
    requires
        wf(ws),
        1 <= tag <= 3,
        container_added(ws, base, tag, cap, r, xs),
    ensures
        wf(xs),
        r is Ok <==> container_bytes(tag == 2, cap) <= room(ws),
        r is Err ==> r == Err::<NodeRef, ApiError>(ApiError::CapacityExceeded) && xs == ws,
        r matches Ok(node) ==> {
            let n = off_of(node.handle) as int;
            &&& node.base == base
            &&& node.handle >> 56 == tag
            &&& kind_of(node.handle) == tag
            &&& live(xs, node.handle)
            &&& !live(ws, node.handle)
            &&& cap_of(xs, n) == places(cap)
            &&& count_of(xs, n) == 0
            &&& room(xs) == room(ws) - container_bytes(tag == 2, cap)
            &&& tag != 2 ==> forall|key: Seq<char>| #[trigger] handle_for(xs, n, key) == H_INVALID
            &&& tag == 2 ==> forall|i: int| 0 <= i ==> #[trigger] item_for(xs, n, i) == H_INVALID
        },
{
    reveal(container_added);
    law_new_container(ws, tag, cap);
    lemma_with_container(ws, tag, cap);
    if let Ok(node) = r {
        let n = off_of(node.handle) as int;
        crate::limits::lemma_kind_byte(node.handle);
        if live(ws, node.handle) {
            lemma_node(ws, n);
        }
        if tag != 2 {
            assert forall|key: Seq<char>| #[trigger] handle_for(xs, n, key) == H_INVALID by {
                assert(slot_of(xs, n, key) is None);
            }
        }
    }
}

/// What is there before a container is created is there afterwards.
proof fn lemma_added_alike(
    ws: Seq<u64>,
    base: u64,
    tag: u8,
    cap: u32,
    r: Result<NodeRef, ApiError>,
    xs: Seq<u64>,
    other: NodeRef,
    key: JsKey,
)
    requires
        wf(ws),
        1 <= tag <= 3,
        container_added(ws, base, tag, cap, r, xs),
        live(ws, other.handle),
        container_kind(kind_of(other.handle)),
    ensures
        reads_alike(ws, xs, other.handle, key, H_INVALID),
{
    reveal(container_added);
    law_new_container(ws, tag, cap);
    lemma_with_container(ws, tag, cap);
    if r is Ok {
        assert(live(xs, other.handle));
        lemma_frame_alike(ws, xs, other, key);
    } else {
        lemma_read_live(ws, other.handle, key);
    }
}

/// Containers that stay as they are show what they showed.
proof fn lemma_frame_alike(ws: Seq<u64>, xs: Seq<u64>, other: NodeRef, key: JsKey)
    requires
        wf(ws),
        wf(xs),
        live(ws, other.handle),
        live(xs, other.handle),
        container_kind(kind_of(other.handle)),
        forall|c: int| #[trigger] is_table(ws, c) ==> same_table(ws, xs, c),
        forall|a: int| #[trigger] is_list(ws, a) ==> same_list(ws, xs, a),
        forall|g: u64| live(ws, g) ==> #[trigger] value_at(xs, g) == value_at(ws, g),
    ensures
        reads_alike(ws, xs, other.handle, key, H_INVALID),
{
    let h = other.handle;
    let d = off_of(h) as int;
    lemma_node(ws, d);
    if kind_of(h) == KIND_ARRAY {
        assert(is_list(ws, d));
    } else {
        assert(is_table(ws, d));
        if let JsKey::Text(b) = key {
            crate::tables::lemma_slot_from(
                ws,
                d,
                vstd::utf8::encode_utf8(b@),
                0,
                cap_of(ws, d),
            );
        }
    }
    lemma_same_read(ws, xs, h, key);
    lemma_read_live(ws, h, key);
    lemma_read_live(xs, h, key);
}

/// An object is created if there is space for it. It is a new one, it has as many places as asked
/// for, no keys, and no length.
pub proof fn law_new_object<M: Memory>(
    region: SharedRegion,
    cap: u32,
    s: String,
    m: &mut M,
    n: &mut M,
    o: &mut M,
    p: &mut M,
    node: NodeRef,
    r: Result<NodeRef, ApiError>,
    len: u32,
    has: Result<bool, ApiError>,
    keys: Result<Vec<String>, ApiError>,
)
    requires
        wf(old(m).words()),
        create_object_gives(region, m, cap, r),
        r is Ok ==> node == r->Ok_0,
        *old(n) == *final(m),
        length_gives(node, n, len),
        *old(o) == *final(n),
        has_gives(node, o, JsKey::Text(s), has),
        *old(p) == *final(o),
        keys_gives(node, p, keys),
        final(p).undisturbed(),
    ensures
        r is Ok <==> container_bytes(false, cap) <= room(old(m).words()),
        r is Err ==> r == Err::<NodeRef, ApiError>(ApiError::CapacityExceeded) && final(m).words()
            == old(m).words(),
        r is Ok ==> {
            let ws = old(m).words();
            let xs = final(m).words();
            &&& node.base == region.base
            &&& node.handle >> 56 == 1
            &&& !live(ws, node.handle)
            &&& on_table(*final(m), node)
            &&& cap_of(xs, off_of(node.handle) as int) == places(cap)
            &&& room(xs) == room(ws) - container_bytes(false, cap)
            &&& len == 0
            &&& has == Ok::<bool, ApiError>(false)
            &&& keys matches Ok(list) && list@.len() == 0
        },
{
    lemma_keys(node, p, keys);
    lemma_has(node, o, JsKey::Text(s), has);
    lemma_length(node, n, len);
    lemma_create_object(region, m, cap, r);
    let xs = final(m).words();
    lemma_added(old(m).words(), region.base, 1, cap, r, xs);
    if r is Ok {
        lemma_on_table(xs, node.handle);
        lemma_text_read(xs, node.handle, s);
        crate::laws::law_keys_are_listed(xs, off_of(node.handle) as int, s@);
        assert(keys->Ok_0@.len() == crate::graph::texts(keys->Ok_0@).len());
    }
}

/// A map is created if there is space for it. It is a new one, it has as many places as asked for,
/// no keys, and no length.
pub proof fn law_new_map<M: Memory>(
    region: SharedRegion,
    cap: u32,
    s: String,
    m: &mut M,
    n: &mut M,
    o: &mut M,
    p: &mut M,
    node: NodeRef,
    r: Result<NodeRef, ApiError>,
    len: u32,
    has: Result<bool, ApiError>,
    keys: Result<Vec<String>, ApiError>,
)
    requires
        wf(old(m).words()),
        create_map_gives(region, m, cap, r),
        r is Ok ==> node == r->Ok_0,
        *old(n) == *final(m),
        length_gives(node, n, len),
        *old(o) == *final(n),
        has_gives(node, o, JsKey::Text(s), has),
        *old(p) == *final(o),
        keys_gives(node, p, keys),
        final(p).undisturbed(),
    ensures
        r is Ok <==> container_bytes(false, cap) <= room(old(m).words()),
        r is Err ==> r == Err::<NodeRef, ApiError>(ApiError::CapacityExceeded) && final(m).words()
            == old(m).words(),
        r is Ok ==> {
            let ws = old(m).words();
            let xs = final(m).words();
            &&& node.base == region.base
            &&& node.handle >> 56 == 3
            &&& !live(ws, node.handle)
            &&& on_table(*final(m), node)
            &&& cap_of(xs, off_of(node.handle) as int) == places(cap)
            &&& room(xs) == room(ws) - container_bytes(false, cap)
            &&& len == 0
            &&& has == Ok::<bool, ApiError>(false)
            &&& keys matches Ok(list) && list@.len() == 0
        },
{
    lemma_keys(node, p, keys);
    lemma_has(node, o, JsKey::Text(s), has);
    lemma_length(node, n, len);
    lemma_create_map(region, m, cap, r);
    let xs = final(m).words();
    lemma_added(old(m).words(), region.base, 3, cap, r, xs);
    if r is Ok {
        lemma_on_table(xs, node.handle);
        lemma_text_read(xs, node.handle, s);
        crate::laws::law_keys_are_listed(xs, off_of(node.handle) as int, s@);
        assert(keys->Ok_0@.len() == crate::graph::texts(keys->Ok_0@).len());
    }
}

/// An array is created if there is space for it. It is a new one, it has as many places as asked
/// for, nothing at any index, and no length.
pub proof fn law_new_array<M: Memory>(
    region: SharedRegion,
    cap: u32,
    i: i64,
    m: &mut M,
    n: &mut M,
    o: &mut M,
    node: NodeRef,
    r: Result<NodeRef, ApiError>,
    len: u32,
    has: Result<bool, ApiError>,
)
    requires
        wf(old(m).words()),
        i >= 0,
        create_array_gives(region, m, cap, r),
        r is Ok ==> node == r->Ok_0,
        *old(n) == *final(m),
        length_gives(node, n, len),
        *old(o) == *final(n),
        has_gives(node, o, JsKey::Number(i), has),
        final(o).undisturbed(),
    ensures
        r is Ok <==> container_bytes(true, cap) <= room(old(m).words()),
        r is Err ==> r == Err::<NodeRef, ApiError>(ApiError::CapacityExceeded) && final(m).words()
            == old(m).words(),
        r is Ok ==> {
            let ws = old(m).words();
            let xs = final(m).words();
            &&& node.base == region.base
            &&& node.handle >> 56 == 2
            &&& !live(ws, node.handle)
            &&& crate::usage::on_list(*final(m), node)
            &&& cap_of(xs, off_of(node.handle) as int) == places(cap)
            &&& room(xs) == room(ws) - container_bytes(true, cap)
            &&& len == 0
            &&& has == Ok::<bool, ApiError>(false)
        },
{
    lemma_has(node, o, JsKey::Number(i), has);
    lemma_length(node, n, len);
    lemma_create_array(region, m, cap, r);
    let xs = final(m).words();
    lemma_added(old(m).words(), region.base, 2, cap, r, xs);
    if r is Ok {
        crate::array_usage::lemma_item_read(xs, node.handle, i);
    }
}

/// Creating an object changes nothing that is there.
pub proof fn law_new_object_changes_nothing<M: Memory>(
    region: SharedRegion,
    cap: u32,
    other: NodeRef,
    key: JsKey,
    l: &mut M,
    m: &mut M,
    n: &mut M,
    before: Result<JsOutput, ApiError>,
    r: Result<NodeRef, ApiError>,
    later: Result<JsOutput, ApiError>,
)
    requires
        wf(old(l).words()),
        live(old(l).words(), other.handle),
        container_kind(kind_of(other.handle)),
        get_value_gives(other, l, key, before),
        *old(m) == *final(l),
        create_object_gives(region, m, cap, r),
        *old(n) == *final(m),
        get_value_gives(other, n, key, later),
        final(n).undisturbed(),
    ensures
        same_result(before, later),
        crate::noderef::handle_read(final(m).words(), other.handle, key)
            == crate::noderef::handle_read(old(m).words(), other.handle, key),
{
    lemma_get_value(other, n, key, later);
    lemma_create_object(region, m, cap, r);
    lemma_get_value(other, l, key, before);
    lemma_added_alike(
        old(m).words(),
        region.base,
        1,
        cap,
        r,
        final(m).words(),
        other,
        key,
    );
    lemma_same_shown(before->Ok_0, later->Ok_0);
}

/// Creating an array changes nothing that is there.
pub proof fn law_new_array_changes_nothing<M: Memory>(
    region: SharedRegion,
    cap: u32,
    other: NodeRef,
    key: JsKey,
    l: &mut M,
    m: &mut M,
    n: &mut M,
    before: Result<JsOutput, ApiError>,
    r: Result<NodeRef, ApiError>,
    later: Result<JsOutput, ApiError>,
)
    requires
        wf(old(l).words()),
        live(old(l).words(), other.handle),
        container_kind(kind_of(other.handle)),
        get_value_gives(other, l, key, before),
        *old(m) == *final(l),
        create_array_gives(region, m, cap, r),
        *old(n) == *final(m),
        get_value_gives(other, n, key, later),
        final(n).undisturbed(),
    ensures
        same_result(before, later),
        crate::noderef::handle_read(final(m).words(), other.handle, key)
            == crate::noderef::handle_read(old(m).words(), other.handle, key),
{
    lemma_get_value(other, n, key, later);
    lemma_create_array(region, m, cap, r);
    lemma_get_value(other, l, key, before);
    lemma_added_alike(
        old(m).words(),
        region.base,
        2,
        cap,
        r,
        final(m).words(),
        other,
        key,
    );
    lemma_same_shown(before->Ok_0, later->Ok_0);
}

/// Creating a map changes nothing that is there.
pub proof fn law_new_map_changes_nothing<M: Memory>(
    region: SharedRegion,
    cap: u32,
    other: NodeRef,
    key: JsKey,
    l: &mut M,
    m: &mut M,
    n: &mut M,
    before: Result<JsOutput, ApiError>,
    r: Result<NodeRef, ApiError>,
    later: Result<JsOutput, ApiError>,
)
    requires
        wf(old(l).words()),
        live(old(l).words(), other.handle),
        container_kind(kind_of(other.handle)),
        get_value_gives(other, l, key, before),
        *old(m) == *final(l),
        create_map_gives(region, m, cap, r),
        *old(n) == *final(m),
        get_value_gives(other, n, key, later),
        final(n).undisturbed(),
    ensures
        same_result(before, later),
        crate::noderef::handle_read(final(m).words(), other.handle, key)
            == crate::noderef::handle_read(old(m).words(), other.handle, key),
{
    lemma_get_value(other, n, key, later);
    lemma_create_map(region, m, cap, r);
    lemma_get_value(other, l, key, before);
    lemma_added_alike(
        old(m).words(),
        region.base,
        3,
        cap,
        r,
        final(m).words(),
        other,
        key,
    );
    lemma_same_shown(before->Ok_0, later->Ok_0);
}

// The root.

/// The root is an object of the region, and always the same one. A region that has none yet gets
/// one, which is empty, if there is space for it.
pub proof fn law_one_root<M: Memory>(
    region: SharedRegion,
    m: &mut M,
    n: &mut M,
    o: &mut M,
    r: Result<NodeRef, ApiError>,
    s: Result<NodeRef, ApiError>,
    node: NodeRef,
    len: u32,
)
    requires
        wf(old(m).words()),
        root_gives(region, m, r),
        *old(n) == *final(m),
        root_gives(region, n, s),
        r is Ok ==> node == r->Ok_0,
        *old(o) == *final(n),
        length_gives(node, o, len),
        final(o).undisturbed(),
    ensures
        r is Ok <==> region_header(old(m).words()).root != 0 || 296 <= room(old(m).words()),
        r is Err ==> r == Err::<NodeRef, ApiError>(ApiError::RootFull) && final(m).words() == old(
            m,
        ).words(),
        r is Ok ==> {
            &&& s is Ok
            &&& s->Ok_0.handle == node.handle
            &&& s->Ok_0.base == node.base
            &&& node.base == region.base
            &&& node.handle >> 56 == 1
            &&& on_table(*final(m), node)
            &&& final(n).words() == final(m).words()
            &&& region_header(old(m).words()).root != 0 ==> final(m).words() == old(m).words()
            &&& region_header(old(m).words()).root == 0 ==> len == 0
        },
{
    lemma_length(node, o, len);
    lemma_root(region, n, s);
    lemma_root(region, m, r);
    let ws = old(m).words();
    lemma_rooted(ws);
    lemma_rooted(rooted(ws).1);
    crate::limits::lemma_kind_byte(node.handle);
    crate::value::law_handle_parts(node.handle);
}

/// The root after a change is the root before it.
proof fn lemma_root_stays(ws: Seq<u64>, xs: Seq<u64>)
    requires
        wf(ws),
        wf(xs),
        region_header(xs).root == region_header(ws).root,
        region_header(ws).root != H_INVALID,
    ensures
        rooted(xs) == (rooted(ws).0, xs),
        rooted(ws).1 == ws,
{
    lemma_rooted(ws);
    lemma_rooted(xs);
}

/// Setting a text to a value leaves the root what it is.
pub proof fn law_root_stays_after_set<M: Memory>(
    region: SharedRegion,
    node: NodeRef,
    a: String,
    value: JsInput,
    l: &mut M,
    m: &mut M,
    n: &mut M,
    r: Result<NodeRef, ApiError>,
    t: Result<(), ApiError>,
    s: Result<NodeRef, ApiError>,
)
    requires
        on_table(*old(l), node),
        region_header(old(l).words()).root != 0,
        root_gives(region, l, r),
        *old(m) == *final(l),
        set_gives(node, m, JsKey::Text(a), value, t),
        *old(n) == *final(m),
        root_gives(region, n, s),
        final(n).undisturbed(),
    ensures
        r is Ok,
        s is Ok,
        s->Ok_0.handle == r->Ok_0.handle,
        s->Ok_0.base == r->Ok_0.base,
{
    lemma_root(region, n, s);
    lemma_set(node, m, JsKey::Text(a), value, t);
    lemma_root(region, l, r);
    let ws = old(m).words();
    let xs = final(m).words();
    let c = off_of(node.handle) as int;
    lemma_rooted(old(l).words());
    lemma_on_table(ws, node.handle);
    reveal(value_stored);
    if value !is Other {
        let v = choose|v: Value| #[trigger]
            stored_as(value, v) && (t, xs) == value_set(ws, node.handle, KeyName::Key(a@), v);
        law_put_keeps_the_rest(ws, c, a@, v);
    }
    lemma_root_stays(ws, xs);
}

/// Linking a container to a text leaves the root what it is.
pub proof fn law_root_stays_after_set_node<M: Memory>(
    region: SharedRegion,
    node: NodeRef,
    a: String,
    child: NodeRef,
    l: &mut M,
    m: &mut M,
    n: &mut M,
    r: Result<NodeRef, ApiError>,
    t: Result<(), ApiError>,
    s: Result<NodeRef, ApiError>,
)
    requires
        on_table(*old(l), node),
        region_header(old(l).words()).root != 0,
        live(old(l).words(), child.handle),
        container_kind(kind_of(child.handle)),
        root_gives(region, l, r),
        *old(m) == *final(l),
        set_node_gives(node, m, JsKey::Text(a), child, t),
        *old(n) == *final(m),
        root_gives(region, n, s),
        final(n).undisturbed(),
    ensures
        r is Ok,
        s is Ok,
        s->Ok_0.handle == r->Ok_0.handle,
        s->Ok_0.base == r->Ok_0.base,
{
    lemma_root(region, n, s);
    lemma_set_node(node, m, JsKey::Text(a), child, t);
    lemma_root(region, l, r);
    let ws = old(m).words();
    let xs = final(m).words();
    let c = off_of(node.handle) as int;
    lemma_rooted(old(l).words());
    lemma_on_table(ws, node.handle);
    reveal(node_stored);
    law_link_then_get(ws, c, a@, child.handle);
    lemma_root_stays(ws, xs);
}

/// Deleting a text leaves the root what it is.
pub proof fn law_root_stays_after_delete<M: Memory>(
    region: SharedRegion,
    node: NodeRef,
    a: String,
    l: &mut M,
    m: &mut M,
    n: &mut M,
    r: Result<NodeRef, ApiError>,
    t: Result<bool, ApiError>,
    s: Result<NodeRef, ApiError>,
)
    requires
        on_table(*old(l), node),
        region_header(old(l).words()).root != 0,
        root_gives(region, l, r),
        *old(m) == *final(l),
        delete_gives(node, m, JsKey::Text(a), t),
        *old(n) == *final(m),
        root_gives(region, n, s),
        final(n).undisturbed(),
    ensures
        r is Ok,
        s is Ok,
        s->Ok_0.handle == r->Ok_0.handle,
        s->Ok_0.base == r->Ok_0.base,
{
    lemma_root(region, n, s);
    lemma_delete(node, m, JsKey::Text(a), t);
    lemma_root(region, l, r);
    let ws = old(m).words();
    let xs = final(m).words();
    let c = off_of(node.handle) as int;
    lemma_rooted(old(l).words());
    lemma_on_table(ws, node.handle);
    reveal(removed);
    law_delete(ws, c, a@);
    lemma_root_stays(ws, xs);
}

/// Counting up a text leaves the root what it is.
pub proof fn law_root_stays_after_increment<M: Memory>(
    region: SharedRegion,
    node: NodeRef,
    a: String,
    l: &mut M,
    m: &mut M,
    n: &mut M,
    r: Result<NodeRef, ApiError>,
    t: Result<i64, ApiError>,
    s: Result<NodeRef, ApiError>,
)
    requires
        on_table(*old(l), node),
        region_header(old(l).words()).root != 0,
        root_gives(region, l, r),
        *old(m) == *final(l),
        increment_gives(node, m, JsKey::Text(a), t),
        *old(n) == *final(m),
        root_gives(region, n, s),
        final(n).undisturbed(),
    ensures
        r is Ok,
        s is Ok,
        s->Ok_0.handle == r->Ok_0.handle,
        s->Ok_0.base == r->Ok_0.base,
{
    lemma_root(region, n, s);
    lemma_increment(node, m, JsKey::Text(a), t);
    lemma_root(region, l, r);
    let ws = old(m).words();
    let xs = final(m).words();
    let c = off_of(node.handle) as int;
    lemma_rooted(old(l).words());
    lemma_on_table(ws, node.handle);
    law_increment(ws, c, a@);
    lemma_root_stays(ws, xs);
}

} // verus!
