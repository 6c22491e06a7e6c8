//! What holds of the operations taken together.
//!
//! The laws speak of a region that is in order and of what each operation does to it.
//! That is what an operation does as long as no other thread gets in between; what holds
//! when other threads do is in `history`, `linear`, `counting` and `sharing`.
use crate::arena::{
    aligned, allocated, deallocated, initialized, is_link, lemma_marked, link_in, lock_free, marked,
    region_header, suits, RegionHeader, FREE_EMPTY, INIT_FRESH, INIT_READY, LOCK_FREE, LOCK_HELD,
    OFF_BUMP, OFF_CAPACITY, OFF_FREE, OFF_LOCK, OFF_ROOT, OFF_STATE, SIZE_HEADER,
};
use crate::backend::{can_be_ready, finished, BACKEND_MMAP};
use crate::effects::{
    key_kept, lemma_counted, lemma_deleted, lemma_free_slot, lemma_handle_put, lemma_scalar_put,
    others_kept, overwritten,
};
use crate::frames::{lemma_appended_frame, same_list, same_table};
use crate::layout::{
    bump_of, cap_of, count_of, is_list, is_table, item_at, key_at, key_bytes, lemma_appended_nodes,
    lemma_node, lemma_occupied_bound, lemma_used_key, lemma_with_container, lemma_with_scalar, live,
    live_table, occupied, wf,
};
use crate::lists::{item_fits, lemma_item_put, lemma_item_removed, lemma_pushed, rest_kept};
use crate::memory::{in_words, lemma_word_put, put, word};
use crate::node::{
    container_size, successor, text_of, value_at, with_container, with_scalar, NODE_HDR,
    STORE_LIMIT,
};
use crate::root::{lemma_initialized, lemma_rooted};
use crate::tables::{
    counted, free_slot, handle_for, handle_put, has_key_at, item_for, item_put, item_removed,
    key_deleted, keys_in, lemma_container_not_a_key, lemma_slot_from, lemma_slot_none, pushed,
    replaceable, rooted, scalar_put, slot_of, value_put,
};
use crate::value::{
    container_kind, handle, kind_of, lemma_handle, off_of, GraphError, Value, H_INVALID, KIND_ARRAY,
    KIND_OBJECT, OFFSET_LIMIT,
};
use crate::words::halves;
use vstd::prelude::*;
use vstd::utf8::{
    decode_utf8_encode_utf8, encode_utf8, encode_utf8_decode_utf8, encode_utf8_valid_utf8,
};

verus! {

// Handles and sizes.

/// Different nodes have different handles.
pub proof fn law_handles_differ(kind: u8, off: u64, other_kind: u8, other_off: u64)
    requires
        off < OFFSET_LIMIT,
        other_off < OFFSET_LIMIT,
        handle(kind, off) == handle(other_kind, other_off),
    ensures
        kind == other_kind,
        off == other_off,
{
    lemma_handle(kind, off);
    lemma_handle(other_kind, other_off);
}

/// Rounding up gives the next multiple of eight, and does not change one.
pub proof fn law_aligned(n: int)
    ensures
        aligned(n) % 8 == 0,
        n <= aligned(n) < n + 8,
        aligned(aligned(n)) == aligned(n),
{
}

// The allocator.

/// A block of `m` bytes, a multiple of eight, that has been freed is the next one to be handed out
/// to whoever asks for as many bytes or less, and the allocator is then where it was before.
pub proof fn law_freed_block_is_reused(ws: Seq<u64>, off: u64, m: u64, n: u64)
    requires
        lock_free(ws),
        is_link(region_header(ws).free_top),
        in_words(ws, off as int),
        m > 8 ==> in_words(ws, off + 8),
        SIZE_HEADER <= off <= FREE_EMPTY - 8,
        m >= 8,
        m % 8 == 0,
        n <= m,
    ensures
        allocated(deallocated(ws, off, m), n).0 == Some(off),
        region_header(allocated(deallocated(ws, off, m), n).1) == region_header(ws),
        forall|a: int|
            a != off && a != off + 8 || m == 8 && a != off ==> #[trigger] word(
                allocated(deallocated(ws, off, m), n).1,
                a,
            ) == word(ws, a),
{
    let top = region_header(ws).free_top;
    lemma_marked(top);
    let w0 = put(
        ws,
        off as int,
        if m < 16 {
            marked(top)
        } else {
            top
        },
    );
    let w1 = if m < 16 {
        w0
    } else {
        put(w0, off + 8, m)
    };
    let w2 = put(w1, OFF_FREE as int, off);
    let xs = put(w2, OFF_LOCK as int, LOCK_FREE);
    assert(xs == deallocated(ws, off, m));
    assert(region_header(xs).free_top == off);
    assert(off < 8 * ws.len());
    assert(link_in(word(xs, off as int)) == top);
    let held = put(xs, OFF_LOCK as int, LOCK_HELD);
    lemma_word_put(xs, OFF_LOCK as int, LOCK_HELD, off as int);
    lemma_word_put(xs, OFF_LOCK as int, LOCK_HELD, off + 8);
    let ys = put(xs, OFF_FREE as int, top);
    assert(allocated(xs, n) == (Some(off), ys));
}

/// Of two blocks of at least `n` bytes that have been freed, the one freed last is handed out
/// first, and then the other; the allocator is then where it was before.
pub proof fn law_freed_blocks_come_back_last_first(
    ws: Seq<u64>,
    a: u64,
    m: u64,
    b: u64,
    k: u64,
    n: u64,
)
    requires
        lock_free(ws),
        is_link(region_header(ws).free_top),
        in_words(ws, a as int),
        in_words(ws, b as int),
        m > 8 ==> in_words(ws, a + 8),
        k > 8 ==> in_words(ws, b + 8),
        SIZE_HEADER <= a <= FREE_EMPTY - 8,
        SIZE_HEADER <= b <= FREE_EMPTY - 8,
        m >= 8,
        k >= 8,
        m % 8 == 0,
        k % 8 == 0,
        a + m <= b || b + k <= a,
        n <= m,
        n <= k,
    ensures
        ({
            let freed = deallocated(deallocated(ws, a, m), b, k);
            let once = allocated(freed, n);
            let twice = allocated(once.1, n);
            &&& once.0 == Some(b)
            &&& twice.0 == Some(a)
            &&& region_header(twice.1) == region_header(ws)
        }),
{
    let one = deallocated(ws, a, m);
    let back = allocated(deallocated(one, b, k), n).1;
    let top = region_header(ws).free_top;
    law_freed_block_is_reused(ws, a, m, n);
    assert(region_header(one).free_top == a && lock_free(one));
    law_freed_block_is_reused(one, b, k, n);
    let hs = put(one, OFF_LOCK as int, LOCK_HELD);
    let gs = put(back, OFF_LOCK as int, LOCK_HELD);
    lemma_word_put(one, OFF_LOCK as int, LOCK_HELD, a as int);
    lemma_word_put(one, OFF_LOCK as int, LOCK_HELD, a + 8);
    lemma_word_put(back, OFF_LOCK as int, LOCK_HELD, a as int);
    lemma_word_put(back, OFF_LOCK as int, LOCK_HELD, a + 8);
    assert(word(back, a as int) == word(one, a as int));
    assert(m > 8 ==> word(back, a + 8) == word(one, a + 8));
    assert(suits(hs, a, n) && suits(gs, a, n));
    assert(word(back, OFF_LOCK as int) == word(one, OFF_LOCK as int));
}

/// Without freed blocks, blocks are handed out one behind the other.
pub proof fn law_next_block_lies_behind(ws: Seq<u64>, n: u64, m: u64)
    requires
        lock_free(ws),
        region_header(ws).free_top == FREE_EMPTY,
        allocated(ws, n).0 is Some,
        allocated(allocated(ws, n).1, m).0 is Some,
    ensures
        allocated(allocated(ws, n).1, m).0.unwrap() == allocated(ws, n).0.unwrap() + n,
        allocated(allocated(ws, n).1, m).0.unwrap() + m <= region_header(ws).capacity,
{
}

// A new region.

/// A new region is in order; initializing it again changes nothing, as it is ready.
pub proof fn law_new_region(ws: Seq<u64>, capacity: u64, backend: u32)
    requires
        forall|i: int| 0 <= i < ws.len() ==> #[trigger] ws[i] == 0,
        SIZE_HEADER <= capacity <= 8 * ws.len(),
        capacity < OFFSET_LIMIT,
    ensures
        region_header(ws).init_state == INIT_FRESH,
        wf(initialized(ws, capacity, backend)),
        region_header(initialized(ws, capacity, backend)).init_state == INIT_READY,
        region_header(initialized(ws, capacity, backend)).capacity == capacity,
        region_header(initialized(ws, capacity, backend)).backend == backend,
{
    assert forall|a: int| SIZE_HEADER <= a implies #[trigger] word(ws, a) == 0 by {}
    assert(word(ws, OFF_STATE as int) == 0);
    lemma_initialized(ws, capacity, backend);
    reveal(wf);
}

/// A region that is created in mapped memory, which is zero at first, is in order, empty, and as
/// large as it was asked to be; creating it once more changes nothing.
pub proof fn law_created_region(ws: Seq<u64>, capacity: u64)
    requires
        forall|i: int| 0 <= i < ws.len() ==> #[trigger] ws[i] == 0,
        SIZE_HEADER <= capacity <= 8 * ws.len(),
        capacity < OFFSET_LIMIT,
    ensures
        ({
            let xs = finished(ws, true, capacity);
            &&& can_be_ready(ws)
            &&& wf(xs)
            &&& region_header(xs) == (RegionHeader {
                init_state: INIT_READY,
                backend: BACKEND_MMAP,
                capacity,
                bump: SIZE_HEADER,
                free_top: FREE_EMPTY,
                root: 0,
                _pad: LOCK_FREE,
            })
            &&& finished(xs, true, capacity) == xs
        }),
{
    law_new_region(ws, capacity, BACKEND_MMAP);
    lemma_initialized(ws, capacity, BACKEND_MMAP);
    let w1 = put(ws, OFF_STATE as int, halves(INIT_READY, BACKEND_MMAP));
    let w2 = put(w1, OFF_CAPACITY as int, capacity);
    let w3 = put(w2, OFF_BUMP as int, SIZE_HEADER);
    let w4 = put(w3, OFF_FREE as int, FREE_EMPTY);
    let w5 = put(w4, OFF_ROOT as int, 0);
    let xs = put(w5, OFF_LOCK as int, LOCK_FREE);
    assert(xs == finished(ws, true, capacity));
    assert(word(xs, OFF_BUMP as int) == SIZE_HEADER);
    assert(word(xs, OFF_FREE as int) == FREE_EMPTY);
    assert(word(xs, OFF_ROOT as int) == 0);
    assert(word(xs, OFF_LOCK as int) == LOCK_FREE);
}

/// Whoever attaches to a region that is there changes no word of it, and finds the root and all
/// else that is there.
pub proof fn law_attached_region(ws: Seq<u64>, capacity: u64)
    ensures
        finished(ws, false, capacity) == ws,
        region_header(finished(ws, false, capacity)) == region_header(ws),
        rooted(finished(ws, false, capacity)) == rooted(ws),
        forall|c: int, key: Seq<char>| #[trigger]
            handle_for(finished(ws, false, capacity), c, key) == handle_for(ws, c, key),
        forall|h: u64| #[trigger]
            value_at(finished(ws, false, capacity), h) == value_at(ws, h),
{
}

/// The root is created once: whoever asks for it again gets the same object, and
/// nothing changes.
pub proof fn law_root_is_one(ws: Seq<u64>)
    requires
        wf(ws),
        rooted(ws).0 is Some,
    ensures
        wf(rooted(ws).1),
        live_table(rooted(ws).1, rooted(ws).0.unwrap()),
        kind_of(rooted(ws).0.unwrap()) == KIND_OBJECT,
        rooted(rooted(ws).1) == rooted(ws),
{
    lemma_rooted(ws);
}

/// The root stays: no operation on keys of an object or map replaces it.
pub proof fn law_root_stays(ws: Seq<u64>, c: int, key: Seq<char>, v: Value)
    requires
        wf(ws),
        is_table(ws, c),
        !v.is_container(),
    ensures
        region_header(scalar_put(ws, c, key, v).1).root == region_header(ws).root,
        region_header(counted(ws, c, key).1).root == region_header(ws).root,
        region_header(key_deleted(ws, c, key).1).root == region_header(ws).root,
{
    lemma_scalar_put(ws, c, key, v);
    lemma_counted(ws, c, key);
    if slot_of(ws, c, key) is Some {
        lemma_deleted(ws, c, key);
    }
}

// Creating.

/// A scalar that has been stored is read back as it was.
pub proof fn law_scalar_is_read_back(ws: Seq<u64>, v: Value)
    requires
        wf(ws),
        !v.is_container(),
        with_scalar(ws, v).0 is Some,
    ensures
        wf(with_scalar(ws, v).1),
        live(with_scalar(ws, v).1, with_scalar(ws, v).0.unwrap()),
        value_at(with_scalar(ws, v).1, with_scalar(ws, v).0.unwrap()) == v,
{
    lemma_with_scalar(ws, v);
}

/// A scalar can be stored if and only if there is space for its node and it is not too
/// long. If it cannot, nothing changes.
pub proof fn law_scalar_fits(ws: Seq<u64>, v: Value)
    requires
        wf(ws),
        !v.is_container(),
    ensures
        with_scalar(ws, v).0 is Some <==> v.store() <= STORE_LIMIT && bump_of(ws) + NODE_HDR
            + v.size() <= region_header(ws).capacity,
        with_scalar(ws, v).0 is None ==> with_scalar(ws, v).1 == ws,
{
    lemma_with_scalar(ws, v);
}

/// A new container is empty, has the slots that were asked for, or sixteen if none were,
/// and leaves everything else as it was. There is one if and only if there is space.
pub proof fn law_new_container(ws: Seq<u64>, tag: u8, cap: u32)
    requires
        wf(ws),
        container_kind(tag),
    ensures
        with_container(ws, tag, cap).0 is Some <==> bump_of(ws) + container_size(tag, cap)
            <= region_header(ws).capacity,
        match with_container(ws, tag, cap) {
            (Some(h), xs) => {
                &&& wf(xs)
                &&& live(xs, h)
                &&& kind_of(h) == tag
                &&& count_of(xs, off_of(h) as int) == 0
                &&& cap_of(xs, off_of(h) as int) == if cap == 0 {
                    16
                } else {
                    cap
                }
                &&& tag != KIND_ARRAY ==> forall|key: Seq<char>|
                    #[trigger] slot_of(xs, off_of(h) as int, key) is None
                &&& tag == KIND_ARRAY ==> forall|i: int|
                    0 <= i ==> #[trigger] item_for(xs, off_of(h) as int, i) == H_INVALID
                &&& forall|c: int| #[trigger] is_table(ws, c) ==> same_table(ws, xs, c)
                &&& forall|a: int| #[trigger] is_list(ws, a) ==> same_list(ws, xs, a)
                &&& forall|g: u64| live(ws, g) ==> #[trigger] value_at(xs, g) == value_at(ws, g)
            },
            (None, xs) => xs == ws,
        },
{
    lemma_with_container(ws, tag, cap);
    if let (Some(h), xs) = with_container(ws, tag, cap) {
        let n = off_of(h) as int;
        lemma_appended_frame(ws, xs, container_size(tag, cap) as int);
        assert forall|key: Seq<char>| tag != KIND_ARRAY implies #[trigger] slot_of(xs, n, key)
            is None by {
            assert forall|j: int| 0 <= j < cap_of(xs, n) implies !#[trigger] has_key_at(
                xs,
                n,
                j,
                encode_utf8(key),
            ) by {
                assert(key_at(xs, n, j) == 0);
            }
            lemma_slot_none(xs, n, encode_utf8(key), 0, cap_of(xs, n));
        }
        assert forall|i: int| 0 <= i && tag == KIND_ARRAY implies #[trigger] item_for(xs, n, i)
            == H_INVALID by {
            if i < cap_of(xs, n) {
                assert(item_at(xs, n, i) == 0);
            }
        }
    }
}

// Setting and getting keys.

/// What a reader gets for `key` of the object or map at `c`.
pub open spec fn value_for(ws: Seq<u64>, c: int, key: Seq<char>) -> Value {
    value_at(ws, handle_for(ws, c, key))
}

/// A scalar that has been set under a key is what is read under that key.
pub proof fn law_put_then_get(ws: Seq<u64>, c: int, key: Seq<char>, v: Value)
    requires
        wf(ws),
        is_table(ws, c),
        !v.is_container(),
        scalar_put(ws, c, key, v).0 is Ok,
    ensures
        wf(scalar_put(ws, c, key, v).1),
        slot_of(scalar_put(ws, c, key, v).1, c, key) is Some,
        value_for(scalar_put(ws, c, key, v).1, c, key) == v,
{
    lemma_scalar_put(ws, c, key, v);
}

/// Setting a scalar under a key leaves all other keys, and all other containers, with the
/// nodes that they had; of the values only that of the node that was overwritten, if one
/// was, changes.
pub proof fn law_put_keeps_the_rest(ws: Seq<u64>, c: int, key: Seq<char>, v: Value)
    requires
        wf(ws),
        is_table(ws, c),
        !v.is_container(),
    ensures
        others_kept(ws, scalar_put(ws, c, key, v).1, c, key, overwritten(ws, c, key, v)),
{
    lemma_scalar_put(ws, c, key, v);
}

/// The number of keys grows by one with a new key, and stays with an old one.
pub proof fn law_put_counts(ws: Seq<u64>, c: int, key: Seq<char>, v: Value)
    requires
        wf(ws),
        is_table(ws, c),
        !v.is_container(),
    ensures
        count_of(scalar_put(ws, c, key, v).1, c) == count_of(ws, c) + if scalar_put(
            ws,
            c,
            key,
            v,
        ).0 is Ok && slot_of(ws, c, key) is None {
            1int
        } else {
            0
        },
{
    lemma_scalar_put(ws, c, key, v);
}

/// A key that is put twice is there once: it is listed once, the number of keys has grown by one,
/// and the value is the one that was put last.
pub proof fn law_put_twice(ws: Seq<u64>, c: int, key: Seq<char>, v: Value, w: Value)
    requires
        wf(ws),
        is_table(ws, c),
        !v.is_container(),
        !w.is_container(),
        slot_of(ws, c, key) is None,
        scalar_put(ws, c, key, v).0 is Ok,
        scalar_put(scalar_put(ws, c, key, v).1, c, key, w).0 is Ok,
    ensures
        ({
            let xs = scalar_put(scalar_put(ws, c, key, v).1, c, key, w).1;
            let keys = keys_in(xs, c, cap_of(xs, c));
            &&& keys.contains(key)
            &&& keys.no_duplicates()
            &&& keys.len() == keys_in(ws, c, cap_of(ws, c)).len() + 1
            &&& count_of(xs, c) == count_of(ws, c) + 1
            &&& value_at(xs, handle_for(xs, c, key)) == w
        }),
{
    let ys = scalar_put(ws, c, key, v).1;
    let xs = scalar_put(ys, c, key, w).1;
    lemma_scalar_put(ws, c, key, v);
    lemma_scalar_put(ys, c, key, w);
    law_keys_are_listed(ws, c, key);
    law_keys_are_listed(xs, c, key);
}

/// A put that is refused leaves the graph as it was.
pub proof fn law_refused_put_changes_nothing(ws: Seq<u64>, c: int, key: Seq<char>, v: Value)
    requires
        wf(ws),
        is_table(ws, c),
        !v.is_container(),
        scalar_put(ws, c, key, v).0 is Err,
    ensures
        others_kept(ws, scalar_put(ws, c, key, v).1, c, key, -1),
        key_kept(ws, scalar_put(ws, c, key, v).1, c, key),
        value_for(scalar_put(ws, c, key, v).1, c, key) == value_for(ws, c, key),
{
    lemma_scalar_put(ws, c, key, v);
    lemma_slot_from(ws, c, encode_utf8(key), 0, cap_of(ws, c));
    lemma_handle_for_live(ws, c, key);
}

/// What a key leads to is a node.
proof fn lemma_handle_for_live(ws: Seq<u64>, c: int, key: Seq<char>)
    requires
        wf(ws),
        is_table(ws, c),
    ensures
        slot_of(ws, c, key) is Some ==> live(ws, handle_for(ws, c, key)),
        slot_of(ws, c, key) is None ==> handle_for(ws, c, key) == H_INVALID,
{
    lemma_slot_from(ws, c, encode_utf8(key), 0, cap_of(ws, c));
    if let Some(i) = slot_of(ws, c, key) {
        lemma_used_key(ws, c, i);
    }
}

/// When a put is refused. A value that fits into the node that is there is never
/// refused. Otherwise there must be space for its node, and for a new key also for the
/// key, and a free slot: the capacity of a container is fixed.
pub proof fn law_when_put_is_refused(ws: Seq<u64>, c: int, key: Seq<char>, v: Value)
    requires
        wf(ws),
        is_table(ws, c),
        !v.is_container(),
    ensures
        ({
            let r = scalar_put(ws, c, key, v).0;
            let there = slot_of(ws, c, key) is Some;
            let k = Value::Str(key);
            let left = region_header(ws).capacity - bump_of(ws);
            let size = NODE_HDR + v.size();
            let key_size = NODE_HDR + k.size();
            &&& there && replaceable(ws, handle_for(ws, c, key), v) ==> r is Ok
            &&& there && !replaceable(ws, handle_for(ws, c, key), v) ==> {
                &&& r is Ok <==> v.store() <= STORE_LIMIT && size <= left
                &&& r matches Err(e) ==> e == GraphError::RegionFull
            }
            &&& !there ==> {
                &&& r == Err::<(), GraphError>(GraphError::ContainerFull) <==> count_of(ws, c)
                    == cap_of(ws, c)
                &&& r is Ok <==> count_of(ws, c) < cap_of(ws, c) && k.store() <= STORE_LIMIT
                    && v.store() <= STORE_LIMIT && key_size + size <= left
                &&& r matches Err(e) ==> e == GraphError::ContainerFull || e
                    == GraphError::RegionFull
            }
        }),
{
    let k = Value::Str(key);
    lemma_with_scalar(ws, v);
    lemma_with_scalar(ws, k);
    lemma_free_slot(ws, c);
    lemma_counts(ws, c);
    lemma_slot_from(ws, c, encode_utf8(key), 0, cap_of(ws, c));
    if with_scalar(ws, k).0 is Some {
        let w = with_scalar(ws, k).1;
        lemma_with_scalar(w, v);
        lemma_appended_nodes(ws, w, NODE_HDR + k.size());
    }
}

/// No more slots are in use than there are.
proof fn lemma_counts(ws: Seq<u64>, c: int)
    requires
        wf(ws),
        is_table(ws, c),
    ensures
        count_of(ws, c) <= cap_of(ws, c),
{
    lemma_node(ws, c);
    lemma_occupied_bound(ws, c, cap_of(ws, c));
}

/// A node that has been linked to a key is the very node that the key leads to: a
/// container is not copied. All other keys, containers and values stay.
pub proof fn law_link_then_get(ws: Seq<u64>, c: int, key: Seq<char>, child: u64)
    requires
        wf(ws),
        is_table(ws, c),
        live(ws, child),
        container_kind(kind_of(child)),
    ensures
        ({
            let (r, xs) = handle_put(ws, c, key, child);
            &&& others_kept(ws, xs, c, key, -1)
            &&& r is Ok ==> handle_for(xs, c, key) == child && value_for(xs, c, key).is_container()
            &&& r is Err ==> key_kept(ws, xs, c, key)
            &&& r == Err::<(), GraphError>(GraphError::ContainerFull) ==> count_of(ws, c) == cap_of(
                ws,
                c,
            )
            &&& slot_of(ws, c, key) is Some ==> r is Ok
            &&& slot_of(ws, c, key) is None && count_of(ws, c) == cap_of(ws, c) ==> r is Err
        }),
{
    lemma_container_not_a_key(ws, child);
    lemma_handle_put(ws, c, key, child);
    lemma_free_slot(ws, c);
    let (r, xs) = handle_put(ws, c, key, child);
    if r is Ok {
        assert(child != H_INVALID);
    }
}

/// Copying a value to a key: a scalar is read under the key as it was behind the handle,
/// a container is linked.
pub proof fn law_put_value_then_get(ws: Seq<u64>, c: int, key: Seq<char>, h: u64)
    requires
        wf(ws),
        is_table(ws, c),
        live(ws, h),
        value_put(ws, c, key, h).0 is Ok,
    ensures
        wf(value_put(ws, c, key, h).1),
        value_for(value_put(ws, c, key, h).1, c, key) == value_at(ws, h),
{
    if container_kind(kind_of(h)) {
        lemma_container_not_a_key(ws, h);
        lemma_handle_put(ws, c, key, h);
    } else {
        lemma_scalar_put(ws, c, key, value_at(ws, h));
    }
}

/// A deleted key is gone, and nothing else is. Deleting a key that is not there changes
/// nothing.
pub proof fn law_delete(ws: Seq<u64>, c: int, key: Seq<char>)
    requires
        wf(ws),
        is_table(ws, c),
    ensures
        ({
            let (was, xs) = key_deleted(ws, c, key);
            &&& was == (slot_of(ws, c, key) is Some)
            &&& slot_of(xs, c, key) is None
            &&& value_for(xs, c, key) == Value::Null
            &&& was ==> others_kept(ws, xs, c, key, -1) && count_of(xs, c) == count_of(ws, c) - 1
            &&& !was ==> xs == ws
        }),
{
    if slot_of(ws, c, key) is Some {
        lemma_deleted(ws, c, key);
    }
}

/// A slot that a deleted key has left can be used again: where there was a key to
/// delete, there is a free slot afterwards.
pub proof fn law_delete_makes_room(ws: Seq<u64>, c: int, key: Seq<char>)
    requires
        wf(ws),
        is_table(ws, c),
        slot_of(ws, c, key) is Some,
    ensures
        free_slot(key_deleted(ws, c, key).1, c) is Some,
{
    lemma_deleted(ws, c, key);
    lemma_counts(ws, c);
    lemma_free_slot(key_deleted(ws, c, key).1, c);
}

/// An increment gives the number that was there plus one, and leaves it there. A counter
/// that is missing, or is no number, starts at zero. Everything else stays.
pub proof fn law_increment(ws: Seq<u64>, c: int, key: Seq<char>)
    requires
        wf(ws),
        is_table(ws, c),
    ensures
        ({
            let (r, xs) = counted(ws, c, key);
            let before = value_for(ws, c, key);
            let h = handle_for(ws, c, key);
            &&& r matches Ok(v) ==> value_for(xs, c, key) == Value::Int(v)
            &&& before is Int ==> r == Ok::<i64, GraphError>(successor(before->Int_0))
            &&& before !is Int ==> (r matches Ok(v) ==> v == 1)
            &&& r is Err ==> key_kept(ws, xs, c, key)
            &&& others_kept(
                ws,
                xs,
                c,
                key,
                if before is Int {
                    off_of(h) as int
                } else {
                    -1
                },
            )
        }),
{
    lemma_counted(ws, c, key);
    lemma_handle_for_live(ws, c, key);
}

/// The keys that are listed are the ones that are there, each of them once.
pub proof fn law_keys_are_listed(ws: Seq<u64>, c: int, key: Seq<char>)
    requires
        wf(ws),
        is_table(ws, c),
    ensures
        ({
            let keys = keys_in(ws, c, cap_of(ws, c));
            &&& keys.contains(key) == (slot_of(ws, c, key) is Some)
            &&& keys.no_duplicates()
            &&& keys.len() == count_of(ws, c)
        }),
{
    let cap = cap_of(ws, c);
    let keys = keys_in(ws, c, cap);
    lemma_node(ws, c);
    lemma_keys_in(ws, c, cap);
    lemma_slot_from(ws, c, encode_utf8(key), 0, cap);
    if let Some(i) = slot_of(ws, c, key) {
        encode_utf8_valid_utf8(key);
        encode_utf8_decode_utf8(key);
        lemma_key_listed(ws, c, i, cap);
    }
    if keys.contains(key) {
        let j = choose|j: int| 0 <= j < keys.len() && keys[j] == key;
        let i = lemma_listed_key(ws, c, cap, j);
        assert(has_key_at(ws, c, i, encode_utf8(key)));
    }
    lemma_listed_once(ws, c, cap);
}

/// As many keys are listed as slots are in use.
proof fn lemma_keys_in(ws: Seq<u64>, c: int, n: int)
    requires
        wf(ws),
        is_table(ws, c),
        0 <= n <= cap_of(ws, c),
    ensures
        keys_in(ws, c, n).len() == occupied(ws, c, n),
    decreases n,
{
    if n > 0 {
        lemma_keys_in(ws, c, n - 1);
        if key_at(ws, c, n - 1) != H_INVALID {
            lemma_used_key(ws, c, n - 1);
        }
    }
}

/// The key of a slot in use is listed.
proof fn lemma_key_listed(ws: Seq<u64>, c: int, i: int, n: int)
    requires
        wf(ws),
        is_table(ws, c),
        0 <= i < n <= cap_of(ws, c),
        key_at(ws, c, i) != H_INVALID,
    ensures
        keys_in(ws, c, n).contains(text_of(key_bytes(ws, c, i))),
    decreases n,
{
    let text = text_of(key_bytes(ws, c, i));
    let before = keys_in(ws, c, n - 1);
    if i == n - 1 {
        lemma_used_key(ws, c, i);
        assert(before.push(text)[before.len() as int] == text);
    } else {
        lemma_key_listed(ws, c, i, n - 1);
        let j = choose|j: int| 0 <= j < before.len() && before[j] == text;
        assert(keys_in(ws, c, n)[j] == text);
    }
}

/// A text that is listed is the key of a slot in use.
proof fn lemma_listed_key(ws: Seq<u64>, c: int, n: int, j: int) -> (i: int)
    requires
        wf(ws),
        is_table(ws, c),
        0 <= n <= cap_of(ws, c),
        0 <= j < keys_in(ws, c, n).len(),
    ensures
        0 <= i < n,
        key_at(ws, c, i) != H_INVALID,
        keys_in(ws, c, n)[j] == text_of(key_bytes(ws, c, i)),
        has_key_at(ws, c, i, encode_utf8(keys_in(ws, c, n)[j])),
    decreases n,
{
    if j < keys_in(ws, c, n - 1).len() {
        lemma_listed_key(ws, c, n - 1, j)
    } else {
        lemma_used_key(ws, c, n - 1);
        decode_utf8_encode_utf8(key_bytes(ws, c, n - 1));
        n - 1
    }
}

/// No key is listed twice.
proof fn lemma_listed_once(ws: Seq<u64>, c: int, n: int)
    requires
        wf(ws),
        is_table(ws, c),
        0 <= n <= cap_of(ws, c),
    ensures
        keys_in(ws, c, n).no_duplicates(),
    decreases n,
{
    if n > 0 {
        lemma_listed_once(ws, c, n - 1);
        let before = keys_in(ws, c, n - 1);
        if key_at(ws, c, n - 1) != H_INVALID {
            lemma_used_key(ws, c, n - 1);
            decode_utf8_encode_utf8(key_bytes(ws, c, n - 1));
            assert forall|j: int| 0 <= j < before.len() implies #[trigger] before[j] != text_of(
                key_bytes(ws, c, n - 1),
            ) by {
                let i = lemma_listed_key(ws, c, n - 1, j);
                lemma_used_key(ws, c, i);
                decode_utf8_encode_utf8(key_bytes(ws, c, i));
                lemma_keys_differ(ws, c, i, n - 1);
            }
        }
    }
}

/// Two slots in use have different keys.
proof fn lemma_keys_differ(ws: Seq<u64>, c: int, i: int, j: int)
    requires
        wf(ws),
        is_table(ws, c),
        0 <= i < j < cap_of(ws, c),
        key_at(ws, c, i) != H_INVALID,
        key_at(ws, c, j) != H_INVALID,
    ensures
        key_bytes(ws, c, i) != key_bytes(ws, c, j),
{
    reveal(wf);
}

// Arrays.

/// What has been put at an index of an array is what is there; the array is at least that
/// long then. Everything else stays.
pub proof fn law_put_index_then_get(ws: Seq<u64>, a: int, i: int, v: u64)
    requires
        wf(ws),
        is_list(ws, a),
        0 <= i < cap_of(ws, a),
        item_fits(ws, v),
    ensures
        ({
            let xs = item_put(ws, a, i, v);
            &&& rest_kept(ws, xs, a, i)
            &&& item_for(xs, a, i) == v
            &&& count_of(xs, a) >= i + 1
            &&& count_of(xs, a) >= count_of(ws, a)
            &&& count_of(xs, a) == i + 1 || count_of(xs, a) == count_of(ws, a)
        }),
{
    lemma_item_put(ws, a, i, v);
}

/// What is appended to an array becomes its last element, and its length, which is given,
/// one more. A full array refuses, and stays as it is.
pub proof fn law_push(ws: Seq<u64>, a: int, v: u64)
    requires
        wf(ws),
        is_list(ws, a),
        item_fits(ws, v),
    ensures
        ({
            let len = count_of(ws, a);
            let (r, xs) = pushed(ws, a, v);
            &&& rest_kept(ws, xs, a, len as int)
            &&& r is Ok <==> len < cap_of(ws, a)
            &&& r matches Ok(n) ==> n == len + 1 && count_of(xs, a) == n && item_for(
                xs,
                a,
                len as int,
            ) == v
            &&& r matches Err(e) ==> e == GraphError::ArrayFull && same_list(ws, xs, a)
        }),
{
    lemma_pushed(ws, a, v);
}

/// What has been deleted from an array is gone; the array keeps its length and all other
/// elements.
pub proof fn law_delete_index(ws: Seq<u64>, a: int, i: int)
    requires
        wf(ws),
        is_list(ws, a),
        0 <= i < cap_of(ws, a),
    ensures
        rest_kept(ws, item_removed(ws, a, i), a, i),
        item_for(item_removed(ws, a, i), a, i) == H_INVALID,
        count_of(item_removed(ws, a, i), a) == count_of(ws, a),
{
    lemma_item_removed(ws, a, i);
}

/// Behind the end of an array there is nothing.
pub proof fn law_nothing_behind_the_end(ws: Seq<u64>, a: int, i: int)
    requires
        wf(ws),
        is_list(ws, a),
        count_of(ws, a) <= i,
    ensures
        item_for(ws, a, i) == H_INVALID,
{
    lemma_node(ws, a);
    if i < cap_of(ws, a) {
        assert(item_at(ws, a, i) == H_INVALID);
    }
}

} // verus!
