//! What the operations on containers do to a region, and that they keep it in
//! order.
use crate::arena::{odd, region_header, OFF_ROOT, SIZE_HEADER};
use crate::layout::{
    cap_of, changed_at, count_of, extent, is_list, is_node, is_table, item_at, item_off, key_at,
    key_bytes, keys_apart, leaf_ok, lemma_changed_nodes, lemma_changed_wf, lemma_key_same,
    lemma_keys_apart_same, lemma_list_same, lemma_node, lemma_nodes_apart, lemma_occupied_bound,
    lemma_occupied_same, lemma_payload_len, lemma_payload_value, lemma_str_same, lemma_table_same,
    lemma_used_key, live, node_ok, not_a_key, occupied, same_in, seq_of, slot_off, slot_ok,
    table_kind, table_ok, tag_of, val_at, wf,
};
use crate::memory::{in_words, lemma_word_put, lemma_word_put_all, put, put_all, word};
use crate::node::{
    counter_at, incremented, node_header, reusable, rewritten, str_bytes, successor, text_of,
    value_at, with_container, with_scalar, DEFAULT_CAP, NODE_HDR,
};
use crate::trace::bumped;
use crate::value::{
    container_kind, kind_of, off_of, GraphError, Value, H_INVALID, KIND_ARRAY, KIND_INT,
    KIND_OBJECT, KIND_STR,
};
use crate::words::{halves, lemma_halves};
use vstd::prelude::*;
use vstd::utf8::{encode_utf8, valid_utf8};

verus! {

/// Slot `i` of the object or map at `c` has the key `key`.
pub open spec fn has_key_at(ws: Seq<u64>, c: int, i: int, key: Seq<u8>) -> bool {
    let k = key_at(ws, c, i);
    k != H_INVALID && kind_of(k) == KIND_STR && key_bytes(ws, c, i) == key
}

/// The first slot from `i` on, below `cap`, that has the key `key`.
pub open spec fn slot_from(ws: Seq<u64>, c: int, key: Seq<u8>, i: int, cap: int) -> Option<int>
    decreases cap - i,
{
    if i >= cap {
        None
    } else if has_key_at(ws, c, i, key) {
        Some(i)
    } else {
        slot_from(ws, c, key, i + 1, cap)
    }
}

/// The slot of the object or map at `c` that has the key `key`.
pub open spec fn slot_of(ws: Seq<u64>, c: int, key: Seq<char>) -> Option<int> {
    slot_from(ws, c, encode_utf8(key), 0, cap_of(ws, c))
}

/// The value handle that the object or map at `c` has for `key`.
pub open spec fn handle_for(ws: Seq<u64>, c: int, key: Seq<char>) -> u64 {
    match slot_of(ws, c, key) {
        Some(i) => val_at(ws, c, i),
        None => H_INVALID,
    }
}

/// The handle in slot `i` of the array at `a`; nothing outside its slots.
pub open spec fn item_for(ws: Seq<u64>, a: int, i: int) -> u64 {
    if i < cap_of(ws, a) {
        item_at(ws, a, i)
    } else {
        H_INVALID
    }
}

/// The keys in the first `n` slots of the object or map at `c`, in the order of
/// the slots.
pub open spec fn keys_in(ws: Seq<u64>, c: int, n: int) -> Seq<Seq<char>>
    decreases n,
{
    if n <= 0 {
        Seq::empty()
    } else {
        let k = key_at(ws, c, n - 1);
        let before = keys_in(ws, c, n - 1);
        if k != H_INVALID && kind_of(k) == KIND_STR {
            before.push(text_of(key_bytes(ws, c, n - 1)))
        } else {
            before
        }
    }
}

// What mutations do.

/// The first slot from `i` on, below `cap`, that is not in use.
pub open spec fn free_from(ws: Seq<u64>, c: int, i: int, cap: int) -> Option<int>
    decreases cap - i,
{
    if i >= cap {
        None
    } else if key_at(ws, c, i) == H_INVALID {
        Some(i)
    } else {
        free_from(ws, c, i + 1, cap)
    }
}

/// The first slot of the object or map at `c` that is not in use.
pub open spec fn free_slot(ws: Seq<u64>, c: int) -> Option<int> {
    free_from(ws, c, 0, cap_of(ws, c))
}

/// `n` plus one, modulo the range of a word.
pub open spec fn one_up(n: u64) -> u64 {
    if n == u64::MAX {
        0
    } else {
        (n + 1) as u64
    }
}

/// `n` minus one, modulo the range of a word.
pub open spec fn one_down(n: u64) -> u64 {
    if n == 0 {
        u64::MAX
    } else {
        (n - 1) as u64
    }
}

/// `ws` after a window on the node at `c` in which nothing was written.
pub open spec fn touched(ws: Seq<u64>, c: int) -> Seq<u64> {
    put(ws, c + 16, bumped(seq_of(ws, c)))
}

/// `ws` with `v` as the value of slot `i` of the object or map at `c`.
pub open spec fn revalued(ws: Seq<u64>, c: int, i: int, v: u64) -> Seq<u64> {
    touched(put(ws, slot_off(c, i) + 8, v), c)
}

/// `ws` with slot `i` of the object or map at `c` put to use for `k` and `v`.
pub open spec fn with_entry(ws: Seq<u64>, c: int, i: int, k: u64, v: u64) -> Seq<u64> {
    let w = put(ws, slot_off(c, i), k);
    let w = put(w, slot_off(c, i) + 8, v);
    let w = put(w, c + 24, one_up(count_of(ws, c)));
    touched(w, c)
}

/// `ws` with slot `i` of the object or map at `c` emptied.
pub open spec fn without_entry(ws: Seq<u64>, c: int, i: int) -> Seq<u64> {
    let w = put(ws, slot_off(c, i), H_INVALID);
    let w = put(w, slot_off(c, i) + 8, H_INVALID);
    let w = put(w, c + 24, one_down(count_of(ws, c)));
    touched(w, c)
}

/// The node behind `h` holds a scalar that `v` can take the place of.
pub open spec fn replaceable(ws: Seq<u64>, h: u64, v: Value) -> bool {
    h != H_INVALID && !container_kind(kind_of(h)) && reusable(ws, h, v)
}

/// What setting `key` of the object or map at `c` to the scalar `v` does. A node
/// that has room for the value is overwritten; else a new node takes its place.
/// A new key takes the first free slot.
pub open spec fn scalar_put(ws: Seq<u64>, c: int, key: Seq<char>, v: Value) -> (
    Result<(), GraphError>,
    Seq<u64>,
) {
    match slot_of(ws, c, key) {
        Some(i) => {
            let h = val_at(ws, c, i);
            if replaceable(ws, h, v) {
                (Ok(()), rewritten(ws, off_of(h) as int, v))
            } else {
                match with_scalar(ws, v) {
                    (Some(new), w) => (Ok(()), revalued(w, c, i, new)),
                    (None, w) => (Err(GraphError::RegionFull), w),
                }
            }
        },
        None => match free_slot(ws, c) {
            None => (Err(GraphError::ContainerFull), touched(ws, c)),
            Some(i) => match with_scalar(ws, Value::Str(key)) {
                (None, w) => (Err(GraphError::RegionFull), touched(w, c)),
                (Some(k), w) => match with_scalar(w, v) {
                    (None, w) => (Err(GraphError::RegionFull), touched(w, c)),
                    (Some(new), w) => (Ok(()), with_entry(w, c, i, k, new)),
                },
            },
        },
    }
}

/// What linking the node behind `child` to `key` of the object or map at `c` does.
pub open spec fn handle_put(ws: Seq<u64>, c: int, key: Seq<char>, child: u64) -> (
    Result<(), GraphError>,
    Seq<u64>,
) {
    match slot_of(ws, c, key) {
        Some(i) => (Ok(()), revalued(ws, c, i, child)),
        None => match with_scalar(ws, Value::Str(key)) {
            (None, w) => (Err(GraphError::RegionFull), touched(w, c)),
            (Some(k), w) => match free_slot(ws, c) {
                None => (Err(GraphError::ContainerFull), touched(w, c)),
                Some(i) => (Ok(()), with_entry(w, c, i, k, child)),
            },
        },
    }
}

/// What setting `key` of the object or map at `c` to the value behind `h` does: a
/// container is linked, a scalar copied.
pub open spec fn value_put(ws: Seq<u64>, c: int, key: Seq<char>, h: u64) -> (
    Result<(), GraphError>,
    Seq<u64>,
) {
    if container_kind(kind_of(h)) {
        handle_put(ws, c, key, h)
    } else {
        scalar_put(ws, c, key, value_at(ws, h))
    }
}

/// What deleting `key` of the object or map at `c` does, and whether it was there.
pub open spec fn key_deleted(ws: Seq<u64>, c: int, key: Seq<char>) -> (bool, Seq<u64>) {
    match slot_of(ws, c, key) {
        Some(i) => (true, without_entry(ws, c, i)),
        None => (false, ws),
    }
}

/// What incrementing the counter `key` of the object or map at `c` does. A
/// missing counter starts at zero, and so does one whose value is no integer.
#[verifier::opaque]
pub open spec fn counted(ws: Seq<u64>, c: int, key: Seq<char>) -> (
    Result<i64, GraphError>,
    Seq<u64>,
) {
    let w = if slot_of(ws, c, key) is None {
        scalar_put(ws, c, key, Value::Int(0)).1
    } else {
        ws
    };
    let h = handle_for(w, c, key);
    if slot_of(w, c, key) is None {
        (Err(GraphError::KeyDisappeared), w)
    } else if kind_of(h) == KIND_INT {
        count_up(w, h)
    } else {
        match scalar_put(w, c, key, Value::Int(0)) {
            (Ok(()), x) => count_up(x, handle_for(x, c, key)),
            (Err(e), x) => (Err(e), x),
        }
    }
}

/// What incrementing the counter behind `h` does.
pub open spec fn count_up(ws: Seq<u64>, h: u64) -> (Result<i64, GraphError>, Seq<u64>) {
    let n = off_of(h) as int;
    (Ok(successor(counter_at(ws, n))), incremented(ws, n))
}

/// `ws` with `v` in slot `i` of the array at `a`, which is at least that long then.
pub open spec fn item_put(ws: Seq<u64>, a: int, i: int, v: u64) -> Seq<u64> {
    let w = put(ws, item_off(a, i), v);
    let w = if i + 1 > count_of(ws, a) {
        put(w, a + 24, (i + 1) as u64)
    } else {
        w
    };
    touched(w, a)
}

/// `ws` with slot `i` of the array at `a` emptied; the array keeps its length.
pub open spec fn item_removed(ws: Seq<u64>, a: int, i: int) -> Seq<u64> {
    touched(put(ws, item_off(a, i), H_INVALID), a)
}

/// What appending `v` to the array at `a` does.
pub open spec fn pushed(ws: Seq<u64>, a: int, v: u64) -> (Result<u32, GraphError>, Seq<u64>) {
    let len = count_of(ws, a);
    if len >= cap_of(ws, a) {
        (Err(GraphError::ArrayFull), touched(ws, a))
    } else {
        (Ok((len + 1) as u32), item_put(ws, a, len as int, v))
    }
}

/// What getting the root does: it is created if there is none.
pub open spec fn rooted(ws: Seq<u64>) -> (Option<u64>, Seq<u64>) {
    let root = region_header(ws).root;
    if root != H_INVALID && container_kind(kind_of(root)) {
        (Some(root), ws)
    } else {
        match with_container(ws, KIND_OBJECT, DEFAULT_CAP) {
            (Some(h), w) => (Some(h), put(w, OFF_ROOT as int, h)),
            (None, w) => (None, w),
        }
    }
}

// Lemmas.

/// The slot that is found has the key, and it is the first one.
pub proof fn lemma_slot_from(ws: Seq<u64>, c: int, key: Seq<u8>, i: int, cap: int)
    ensures
        match slot_from(ws, c, key, i, cap) {
            Some(s) => {
                &&& i <= s < cap
                &&& has_key_at(ws, c, s, key)
                &&& forall|j: int| i <= j < s ==> !#[trigger] has_key_at(ws, c, j, key)
            },
            None => forall|j: int| i <= j < cap ==> !#[trigger] has_key_at(ws, c, j, key),
        },
    decreases cap - i,
{
    if i < cap && !has_key_at(ws, c, i, key) {
        lemma_slot_from(ws, c, key, i + 1, cap);
    }
}

/// The first slot that has the key is the one that is found.
pub proof fn lemma_slot_first(ws: Seq<u64>, c: int, key: Seq<u8>, i: int, cap: int, s: int)
    requires
        i <= s < cap,
        has_key_at(ws, c, s, key),
        forall|j: int| i <= j < s ==> !#[trigger] has_key_at(ws, c, j, key),
    ensures
        slot_from(ws, c, key, i, cap) == Some(s),
    decreases s - i,
{
    if i < s {
        assert(!has_key_at(ws, c, i, key));
        lemma_slot_first(ws, c, key, i + 1, cap, s);
    }
}

/// If no slot has the key, none is found.
pub proof fn lemma_slot_none(ws: Seq<u64>, c: int, key: Seq<u8>, i: int, cap: int)
    requires
        forall|j: int| i <= j < cap ==> !#[trigger] has_key_at(ws, c, j, key),
    ensures
        slot_from(ws, c, key, i, cap) is None,
    decreases cap - i,
{
    if i < cap {
        assert(!has_key_at(ws, c, i, key));
        lemma_slot_none(ws, c, key, i + 1, cap);
    }
}

/// The free slot that is found is free, and it is the first one.
pub proof fn lemma_free_from(ws: Seq<u64>, c: int, i: int, cap: int)
    ensures
        match free_from(ws, c, i, cap) {
            Some(s) => {
                &&& i <= s < cap
                &&& key_at(ws, c, s) == H_INVALID
                &&& forall|j: int| i <= j < s ==> #[trigger] key_at(ws, c, j) != H_INVALID
            },
            None => forall|j: int| i <= j < cap ==> #[trigger] key_at(ws, c, j) != H_INVALID,
        },
    decreases cap - i,
{
    if i < cap && key_at(ws, c, i) != H_INVALID {
        lemma_free_from(ws, c, i + 1, cap);
    }
}

/// No slot of a container leads to `n`.
pub open spec fn not_a_value(ws: Seq<u64>, n: int) -> bool {
    &&& forall|d: int, j: int|
        is_table(ws, d) && 0 <= j < cap_of(ws, d) ==> off_of(#[trigger] val_at(ws, d, j)) != n
    &&& forall|d: int, j: int|
        is_list(ws, d) && 0 <= j < cap_of(ws, d) ==> off_of(#[trigger] item_at(ws, d, j)) != n
}

/// A change at a scalar keeps keys and values apart.
proof fn lemma_leaf_keys_apart(ws: Seq<u64>, xs: Seq<u64>, n: int)
    requires
        wf(ws),
        is_node(ws, n),
        changed_at(ws, xs, n),
        !container_kind(tag_of(ws, n)),
    ensures
        keys_apart(xs),
{
    assert(keys_apart(ws)) by {
        reveal(wf);
    }
    lemma_changed_nodes(ws, xs, n);
    lemma_changed_slots(ws, xs, n);
    lemma_keys_apart_same(ws, xs);
}

/// A change at one node leaves the slots of all other nodes as they were.
pub proof fn lemma_changed_slots(ws: Seq<u64>, xs: Seq<u64>, n: int)
    requires
        wf(ws),
        is_node(ws, n),
        changed_at(ws, xs, n),
    ensures
        forall|m: int| #[trigger] is_table(xs, m) == is_table(ws, m),
        forall|m: int| #[trigger] is_list(xs, m) == is_list(ws, m),
        forall|m: int| #[trigger] is_table(xs, m) ==> cap_of(xs, m) == cap_of(ws, m),
        forall|m: int| #[trigger] is_list(xs, m) ==> cap_of(xs, m) == cap_of(ws, m),
        forall|m: int, i: int|
            m != n && is_table(ws, m) && 0 <= i < cap_of(ws, m) ==> #[trigger] key_at(xs, m, i)
                == key_at(ws, m, i),
        forall|m: int, i: int|
            m != n && is_table(ws, m) && 0 <= i < cap_of(ws, m) ==> #[trigger] val_at(xs, m, i)
                == val_at(ws, m, i),
        forall|m: int, i: int|
            m != n && is_list(ws, m) && 0 <= i < cap_of(ws, m) ==> #[trigger] item_at(xs, m, i)
                == item_at(ws, m, i),
{
    lemma_changed_nodes(ws, xs, n);
    assert forall|m: int| #[trigger] is_table(xs, m) == is_table(ws, m) by {
        assert(is_node(xs, m) == is_node(ws, m));
        if is_node(ws, m) {
            assert(tag_of(xs, m) == tag_of(ws, m));
        }
    }
    assert forall|m: int| #[trigger] is_list(xs, m) == is_list(ws, m) by {
        assert(is_node(xs, m) == is_node(ws, m));
        if is_node(ws, m) {
            assert(tag_of(xs, m) == tag_of(ws, m));
        }
    }
    assert forall|m: int| #[trigger] is_table(xs, m) implies cap_of(xs, m) == cap_of(ws, m) by {
        assert(is_node(ws, m));
        assert(tag_of(xs, m) == tag_of(ws, m));
    }
    assert forall|m: int| #[trigger] is_list(xs, m) implies cap_of(xs, m) == cap_of(ws, m) by {
        assert(is_node(ws, m));
        assert(tag_of(xs, m) == tag_of(ws, m));
    }
    assert forall|m: int, i: int|
        m != n && is_table(ws, m) && 0 <= i < cap_of(ws, m) implies #[trigger] key_at(xs, m, i)
        == key_at(ws, m, i) by {
        assert(same_in(ws, xs, m, m + extent(ws, m)));
    }
    assert forall|m: int, i: int|
        m != n && is_table(ws, m) && 0 <= i < cap_of(ws, m) implies #[trigger] val_at(xs, m, i)
        == val_at(ws, m, i) by {
        assert(same_in(ws, xs, m, m + extent(ws, m)));
    }
    assert forall|m: int, i: int|
        m != n && is_list(ws, m) && 0 <= i < cap_of(ws, m) implies #[trigger] item_at(xs, m, i)
        == item_at(ws, m, i) by {
        assert(same_in(ws, xs, m, m + extent(ws, m)));
    }
}

/// The words of a node that has been overwritten.
pub proof fn lemma_rewritten(ws: Seq<u64>, h: u64, v: Value)
    requires
        wf(ws),
        live(ws, h),
        !v.is_container(),
        reusable(ws, h, v),
    ensures
        changed_at(ws, rewritten(ws, off_of(h) as int, v), off_of(h) as int),
        node_ok(rewritten(ws, off_of(h) as int, v), off_of(h) as int),
        value_at(rewritten(ws, off_of(h) as int, v), h) == v,
        seq_of(rewritten(ws, off_of(h) as int, v), off_of(h) as int) == bumped(
            seq_of(ws, off_of(h) as int),
        ),
{
    let n = off_of(h) as int;
    lemma_node(ws, n);
    lemma_payload_len(v);
    let hdr = node_header(ws, n);
    let xs = rewritten(ws, n, v);
    let y = put_all(ws, n + NODE_HDR, v.payload());
    let z = if v is Str {
        put(y, n + 8, halves(hdr.cap, v.store() as u32))
    } else {
        y
    };
    assert(v.size() <= cap_of(ws, n)) by {
        if v is Str {
            assert(v.store() <= cap_of(ws, n));
        }
    }
    lemma_halves(hdr.cap, v.store() as u32);
    assert forall|a: int| #[trigger]
        word(xs, a) == if a == n + 16 {
            bumped(hdr.seqlock)
        } else if v is Str && a == n + 8 {
            halves(hdr.cap, v.store() as u32)
        } else {
            word(y, a)
        } by {
        lemma_word_put_all(ws, n + NODE_HDR, v.payload(), a);
        lemma_word_put(y, n + 8, halves(hdr.cap, v.store() as u32), a);
        lemma_word_put(z, n + 16, bumped(hdr.seqlock), a);
    }
    assert forall|a: int|
        !(n + NODE_HDR <= a < n + NODE_HDR + v.size()) implies #[trigger] word(y, a) == word(
        ws,
        a,
    ) by {
        lemma_word_put_all(ws, n + NODE_HDR, v.payload(), a);
    }
    assert(xs.len() == ws.len()) by {
        lemma_word_put_all(ws, n + NODE_HDR, v.payload(), 0);
    }
    assert forall|i: int| 0 <= i < v.payload().len() implies #[trigger] v.payload()[i] == word(
        xs,
        off_of(h) + NODE_HDR + 8 * i,
    ) by {
        let a = n + NODE_HDR + 8 * i;
        lemma_word_put_all(ws, n + NODE_HDR, v.payload(), a);
        assert((a - (n + NODE_HDR)) / 8 == i);
        assert(in_words(ws, a));
        assert(word(xs, a) == word(y, a));
    }
    assert(word(xs, n) == word(ws, n));
    assert(word(xs, n + 8) == if v is Str {
        halves(hdr.cap, v.store() as u32)
    } else {
        word(ws, n + 8)
    });
    assert(word(xs, n + 16) == bumped(hdr.seqlock));
    assert(changed_at(ws, xs, n)) by {
        assert forall|a: int|
            !(n < a < n + extent(ws, n)) implies #[trigger] word(xs, a) == word(ws, a) by {
            assert(word(y, a) == word(ws, a));
        }
    }
    assert(leaf_ok(xs, n));
    lemma_payload_value(xs, h, v);
}

/// Overwriting a scalar keeps the region in order.
pub proof fn lemma_rewritten_wf(ws: Seq<u64>, h: u64, v: Value)
    requires
        wf(ws),
        live(ws, h),
        !v.is_container(),
        reusable(ws, h, v),
        not_a_key(ws, off_of(h) as int),
    ensures
        wf(rewritten(ws, off_of(h) as int, v)),
{
    let n = off_of(h) as int;
    lemma_rewritten(ws, h, v);
    lemma_leaf_keys_apart(ws, rewritten(ws, n, v), n);
    lemma_changed_wf(ws, rewritten(ws, n, v), n);
}

/// What becomes of the number of slots in use when slot `i` changes.
pub proof fn lemma_occupied_change(ws: Seq<u64>, xs: Seq<u64>, c: int, i: int, n: int)
    requires
        0 <= i < n,
        forall|j: int|
            0 <= j < n && j != i ==> #[trigger] key_at(xs, c, j) == key_at(ws, c, j),
    ensures
        occupied(xs, c, n) == occupied(ws, c, n) - (if key_at(ws, c, i) != H_INVALID {
            1int
        } else {
            0
        }) + (if key_at(xs, c, i) != H_INVALID {
            1int
        } else {
            0
        }),
    decreases n,
{
    if i == n - 1 {
        lemma_occupied_same(ws, xs, c, n - 1);
    } else {
        lemma_occupied_change(ws, xs, c, i, n - 1);
        assert(key_at(xs, c, n - 1) == key_at(ws, c, n - 1));
    }
}

/// Slot `i` of the object or map at `c`, and nothing else of its slots, differs
/// between `ws` and `xs`.
pub open spec fn slot_changed(ws: Seq<u64>, xs: Seq<u64>, c: int, i: int) -> bool {
    &&& changed_at(ws, xs, c)
    &&& 0 <= i < cap_of(ws, c)
    &&& forall|j: int|
        0 <= j < cap_of(ws, c) && j != i ==> #[trigger] key_at(xs, c, j) == key_at(ws, c, j)
    &&& forall|j: int|
        0 <= j < cap_of(ws, c) && j != i ==> #[trigger] val_at(xs, c, j) == val_at(ws, c, j)
}

/// Slot `i` can be put to use for `k` and `v`.
pub open spec fn entry_fits(ws: Seq<u64>, c: int, i: int, k: u64, v: u64) -> bool {
    &&& live(ws, k)
    &&& kind_of(k) == KIND_STR
    &&& valid_utf8(str_bytes(ws, off_of(k) as int))
    &&& live(ws, v)
    &&& not_a_key(ws, off_of(v) as int)
    &&& not_a_value(ws, off_of(k) as int)
    &&& off_of(k) != off_of(v)
    &&& forall|j: int|
        0 <= j < cap_of(ws, c) && j != i && key_at(ws, c, j) != H_INVALID ==> #[trigger] key_bytes(
            ws,
            c,
            j,
        ) != str_bytes(ws, off_of(k) as int)
}

/// An object or map one slot of which has been emptied or properly filled is in
/// order.
proof fn lemma_slot_table_ok(ws: Seq<u64>, xs: Seq<u64>, c: int, i: int)
    requires
        wf(ws),
        is_table(ws, c),
        slot_changed(ws, xs, c, i),
        key_at(xs, c, i) == H_INVALID && val_at(xs, c, i) == H_INVALID || entry_fits(
            ws,
            c,
            i,
            key_at(xs, c, i),
            val_at(xs, c, i),
        ),
        count_of(xs, c) == occupied(xs, c, cap_of(ws, c)),
    ensures
        table_ok(xs, c),
{
    let cap = cap_of(ws, c);
    lemma_node(ws, c);
    lemma_changed_nodes(ws, xs, c);
    assert forall|j: int| 0 <= j < cap && key_at(xs, c, j) != H_INVALID implies #[trigger] key_bytes(
        xs,
        c,
        j,
    ) == str_bytes(ws, off_of(key_at(xs, c, j)) as int) by {
        if j != i {
            assert(key_at(xs, c, j) == key_at(ws, c, j));
            lemma_key_same(ws, xs, c, c, j);
        } else {
            let k = off_of(key_at(xs, c, i)) as int;
            lemma_node(ws, k);
            assert(same_in(ws, xs, k, k + extent(ws, k)));
            lemma_str_same(ws, xs, k);
        }
    }
    assert forall|j: int| 0 <= j < cap implies #[trigger] slot_ok(xs, c, j) by {
        assert(slot_ok(ws, c, j));
        if j != i {
            assert(key_at(xs, c, j) == key_at(ws, c, j));
            assert(val_at(xs, c, j) == val_at(ws, c, j));
        }
        if key_at(xs, c, j) != H_INVALID {
            assert(key_bytes(xs, c, j) == str_bytes(ws, off_of(key_at(xs, c, j)) as int));
        }
    }
    assert forall|j: int, m: int|
        0 <= j < m < cap && key_at(xs, c, j) != H_INVALID && key_at(xs, c, m)
            != H_INVALID implies #[trigger] key_bytes(xs, c, j) != #[trigger] key_bytes(
        xs,
        c,
        m,
    ) by {
        if j != i {
            assert(key_at(xs, c, j) == key_at(ws, c, j));
            assert(key_bytes(xs, c, j) == key_bytes(ws, c, j));
        }
        if m != i {
            assert(key_at(xs, c, m) == key_at(ws, c, m));
            assert(key_bytes(xs, c, m) == key_bytes(ws, c, m));
        }
    }
}

proof fn lemma_slot_keys_apart(ws: Seq<u64>, xs: Seq<u64>, c: int, i: int)
    requires
        wf(ws),
        is_table(ws, c),
        slot_changed(ws, xs, c, i),
        key_at(xs, c, i) == H_INVALID && val_at(xs, c, i) == H_INVALID || entry_fits(
            ws,
            c,
            i,
            key_at(xs, c, i),
            val_at(xs, c, i),
        ),
    ensures
        keys_apart(xs),
{
    assert(keys_apart(ws)) by {
        reveal(wf);
    }
    lemma_changed_slots(ws, xs, c);
    assert forall|d: int, j: int|
        is_table(xs, d) && 0 <= j < cap_of(xs, d) && #[trigger] key_at(xs, d, j) != H_INVALID && !(d
            == c && j == i) implies is_table(ws, d) && cap_of(ws, d) == cap_of(xs, d) && key_at(
        xs,
        d,
        j,
    ) == key_at(ws, d, j) && off_of(key_at(ws, d, j)) >= SIZE_HEADER by {
        assert(is_table(xs, d) == is_table(ws, d));
        assert(key_at(xs, d, j) == key_at(ws, d, j));
        lemma_used_key(ws, d, j);
    }
    if key_at(xs, c, i) != H_INVALID {
        lemma_node(ws, off_of(key_at(xs, c, i)) as int);
    }
    assert forall|d: int, j: int, e: int, m: int|
        #![trigger key_at(xs, d, j), val_at(xs, e, m)]
        is_table(xs, d) && 0 <= j < cap_of(xs, d) && is_table(xs, e) && 0 <= m < cap_of(xs, e)
            && key_at(xs, d, j) != H_INVALID implies off_of(key_at(xs, d, j)) != off_of(
        val_at(xs, e, m),
    ) by {
        assert(is_table(xs, e) == is_table(ws, e));
        if !(e == c && m == i) {
            assert(val_at(xs, e, m) == val_at(ws, e, m));
        }
    }
    assert forall|d: int, j: int, e: int, m: int|
        #![trigger key_at(xs, d, j), item_at(xs, e, m)]
        is_table(xs, d) && 0 <= j < cap_of(xs, d) && is_list(xs, e) && 0 <= m < cap_of(xs, e)
            && key_at(xs, d, j) != H_INVALID implies off_of(key_at(xs, d, j)) != off_of(
        item_at(xs, e, m),
    ) by {
        assert(is_list(xs, e) == is_list(ws, e));
        assert(e != c);
        assert(item_at(xs, e, m) == item_at(ws, e, m));
    }
}

/// Changing one slot of an object or map keeps the region in order.
pub proof fn lemma_slot_wf(ws: Seq<u64>, xs: Seq<u64>, c: int, i: int)
    requires
        wf(ws),
        is_table(ws, c),
        slot_changed(ws, xs, c, i),
        key_at(xs, c, i) == H_INVALID && val_at(xs, c, i) == H_INVALID || entry_fits(
            ws,
            c,
            i,
            key_at(xs, c, i),
            val_at(xs, c, i),
        ),
        count_of(xs, c) == occupied(xs, c, cap_of(ws, c)),
        !odd(seq_of(xs, c)),
    ensures
        wf(xs),
{
    lemma_slot_table_ok(ws, xs, c, i);
    lemma_slot_keys_apart(ws, xs, c, i);
    lemma_node(ws, c);
    lemma_changed_nodes(ws, xs, c);
    assert(tag_of(xs, c) == tag_of(ws, c));
    lemma_changed_wf(ws, xs, c);
}

/// A window on a node in which nothing is written keeps the region in order.
pub proof fn lemma_touched(ws: Seq<u64>, c: int)
    requires
        wf(ws),
        is_node(ws, c),
    ensures
        changed_at(ws, touched(ws, c), c),
        wf(touched(ws, c)),
        forall|a: int| a != c + 16 ==> #[trigger] word(touched(ws, c), a) == word(ws, a),
        seq_of(touched(ws, c), c) == bumped(seq_of(ws, c)),
{
    let xs = touched(ws, c);
    lemma_node(ws, c);
    assert forall|a: int| a != c + 16 implies #[trigger] word(xs, a) == word(ws, a) by {
        lemma_word_put(ws, c + 16, bumped(seq_of(ws, c)), a);
    }
    lemma_word_put(ws, c + 16, bumped(seq_of(ws, c)), c + 16);
    assert(word(xs, c) == word(ws, c));
    assert(word(xs, c + 8) == word(ws, c + 8));
    assert(changed_at(ws, xs, c));
    lemma_changed_nodes(ws, xs, c);
    if table_kind(tag_of(ws, c)) {
        assert forall|i: int|
            0 <= i < cap_of(ws, c) && key_at(ws, c, i) != H_INVALID implies str_bytes(
            xs,
            off_of(key_at(ws, c, i)) as int,
        ) == #[trigger] key_bytes(ws, c, i) by {
            lemma_key_same(ws, xs, c, c, i);
        }
        lemma_table_same(ws, xs, c);
    } else if tag_of(ws, c) == KIND_ARRAY {
        lemma_list_same(ws, xs, c);
    }
    assert(node_ok(xs, c));
    lemma_touched_rest(ws, xs, c);
}

/// A change of nothing but the version of a node keeps the region in order.
proof fn lemma_touched_rest(ws: Seq<u64>, xs: Seq<u64>, c: int)
    requires
        wf(ws),
        is_node(ws, c),
        changed_at(ws, xs, c),
        node_ok(xs, c),
        forall|a: int| a != c + 16 ==> #[trigger] word(xs, a) == word(ws, a),
    ensures
        wf(xs),
{
    reveal(wf);
    lemma_node(ws, c);
    lemma_changed_slots(ws, xs, c);
    lemma_changed_nodes(ws, xs, c);
    lemma_keys_apart_same(ws, xs);
    assert forall|m: int| #[trigger] is_node(xs, m) implies node_ok(xs, m) by {
        assert(is_node(ws, m));
        if m != c {
            assert(same_in(ws, xs, m, m + extent(ws, m)));
            lemma_node(ws, m);
            assert(tag_of(xs, m) == tag_of(ws, m));
            assert(word(xs, m + 16) == word(ws, m + 16));
            if table_kind(tag_of(ws, m)) {
                assert forall|i: int|
                    0 <= i < cap_of(ws, m) && key_at(ws, m, i) != H_INVALID implies str_bytes(
                    xs,
                    off_of(key_at(ws, m, i)) as int,
                ) == #[trigger] key_bytes(ws, m, i) by {
                    lemma_used_key(ws, m, i);
                    lemma_str_bytes_but_seq(ws, xs, c, off_of(key_at(ws, m, i)) as int);
                }
                lemma_table_same(ws, xs, m);
            } else if tag_of(ws, m) == KIND_ARRAY {
                lemma_list_same(ws, xs, m);
            } else {
                assert(word(xs, m + 8) == word(ws, m + 8));
            }
        }
    }
}

/// A string does not depend on the version of a node.
pub proof fn lemma_str_bytes_but_seq(ws: Seq<u64>, xs: Seq<u64>, c: int, n: int)
    requires
        wf(ws),
        is_node(ws, c),
        is_node(ws, n),
        forall|a: int| a != c + 16 ==> #[trigger] word(xs, a) == word(ws, a),
    ensures
        tag_of(ws, n) == KIND_STR ==> str_bytes(xs, n) == str_bytes(ws, n),
{
    if tag_of(ws, n) == KIND_STR {
        lemma_node(ws, c);
        lemma_node(ws, n);
        assert(n + 8 != c + 16) by {
            if n != c {
                lemma_nodes_apart(ws, n, c);
            }
        }
        assert(word(xs, n + 8) == word(ws, n + 8));
        assert(str_bytes(xs, n) =~= str_bytes(ws, n)) by {
            assert forall|j: int| 0 <= j < node_header(ws, n).store implies str_bytes(xs, n)[j]
                == str_bytes(ws, n)[j] by {
                let a = n + NODE_HDR + 8 * (j / 8);
                assert(a != c + 16) by {
                    if n != c {
                        lemma_nodes_apart(ws, n, c);
                    }
                }
                assert(word(xs, a) == word(ws, a));
            }
        }
    }
}

/// The key in a slot in use is no value.
pub proof fn lemma_key_not_a_value(ws: Seq<u64>, c: int, i: int)
    requires
        wf(ws),
        is_table(ws, c),
        0 <= i < cap_of(ws, c),
        key_at(ws, c, i) != H_INVALID,
    ensures
        not_a_value(ws, off_of(key_at(ws, c, i)) as int),
{
    assert(keys_apart(ws)) by {
        reveal(wf);
    }
}

/// The value of a slot in use is no key.
pub proof fn lemma_val_not_a_key(ws: Seq<u64>, c: int, i: int)
    requires
        wf(ws),
        is_table(ws, c),
        0 <= i < cap_of(ws, c),
    ensures
        not_a_key(ws, off_of(val_at(ws, c, i)) as int),
{
    assert(keys_apart(ws)) by {
        reveal(wf);
    }
}

/// A container is no key.
pub proof fn lemma_container_not_a_key(ws: Seq<u64>, h: u64)
    requires
        wf(ws),
        live(ws, h),
        container_kind(kind_of(h)),
    ensures
        not_a_key(ws, off_of(h) as int),
{
    assert forall|c: int, i: int|
        is_table(ws, c) && 0 <= i < cap_of(ws, c) && #[trigger] key_at(ws, c, i)
            != H_INVALID implies off_of(key_at(ws, c, i)) != off_of(h) by {
        lemma_used_key(ws, c, i);
    }
}

/// Giving a slot in use another value keeps the region in order.
pub proof fn lemma_revalued(ws: Seq<u64>, c: int, i: int, v: u64)
    requires
        wf(ws),
        is_table(ws, c),
        0 <= i < cap_of(ws, c),
        key_at(ws, c, i) != H_INVALID,
        live(ws, v),
        not_a_key(ws, off_of(v) as int),
    ensures
        slot_changed(ws, revalued(ws, c, i, v), c, i),
        key_at(revalued(ws, c, i, v), c, i) == key_at(ws, c, i),
        val_at(revalued(ws, c, i, v), c, i) == v,
        count_of(revalued(ws, c, i, v), c) == count_of(ws, c),
        wf(revalued(ws, c, i, v)),
{
    let xs = revalued(ws, c, i, v);
    lemma_node(ws, c);
    let y = put(ws, slot_off(c, i) + 8, v);
    assert forall|a: int| #[trigger]
        word(xs, a) == if a == c + 16 {
            bumped(seq_of(ws, c))
        } else if a == slot_off(c, i) + 8 {
            v
        } else {
            word(ws, a)
        } by {
        lemma_word_put(ws, slot_off(c, i) + 8, v, a);
        lemma_word_put(ws, slot_off(c, i) + 8, v, c + 16);
        lemma_word_put(y, c + 16, bumped(seq_of(ws, c)), a);
    }
    assert(word(xs, c + 8) == word(ws, c + 8));
    assert(word(xs, c + 24) == word(ws, c + 24));
    assert(word(xs, slot_off(c, i)) == word(ws, slot_off(c, i)));
    assert(slot_changed(ws, xs, c, i));
    lemma_used_key(ws, c, i);
    lemma_key_not_a_value(ws, c, i);
    assert(off_of(key_at(ws, c, i)) != off_of(v)) by {
        assert(key_at(ws, c, i) != H_INVALID);
    }
    assert forall|j: int|
        0 <= j < cap_of(ws, c) && j != i && key_at(ws, c, j) != H_INVALID implies #[trigger] key_bytes(
        ws,
        c,
        j,
    ) != str_bytes(ws, off_of(key_at(ws, c, i)) as int) by {
        assert(key_bytes(ws, c, i) != key_bytes(ws, c, j));
    }
    lemma_occupied_change(ws, xs, c, i, cap_of(ws, c));
    lemma_slot_wf(ws, xs, c, i);
}

/// Putting a free slot to use keeps the region in order.
#[verifier::rlimit(40)]
#[verifier::spinoff_prover]
pub proof fn lemma_with_entry(ws: Seq<u64>, c: int, i: int, k: u64, v: u64)
    requires
        wf(ws),
        is_table(ws, c),
        0 <= i < cap_of(ws, c),
        key_at(ws, c, i) == H_INVALID,
        entry_fits(ws, c, i, k, v),
    ensures
        slot_changed(ws, with_entry(ws, c, i, k, v), c, i),
        key_at(with_entry(ws, c, i, k, v), c, i) == k,
        val_at(with_entry(ws, c, i, k, v), c, i) == v,
        count_of(with_entry(ws, c, i, k, v), c) == count_of(ws, c) + 1,
        wf(with_entry(ws, c, i, k, v)),
{
    let xs = with_entry(ws, c, i, k, v);
    lemma_node(ws, c);
    let cap = cap_of(ws, c);
    let y1 = put(ws, slot_off(c, i), k);
    let y2 = put(y1, slot_off(c, i) + 8, v);
    let y3 = put(y2, c + 24, one_up(count_of(ws, c)));
    assert forall|a: int| #[trigger]
        word(xs, a) == if a == c + 16 {
            bumped(seq_of(ws, c))
        } else if a == c + 24 {
            one_up(count_of(ws, c))
        } else if a == slot_off(c, i) {
            k
        } else if a == slot_off(c, i) + 8 {
            v
        } else {
            word(ws, a)
        } by {
        lemma_word_put(ws, slot_off(c, i), k, a);
        lemma_word_put(y1, slot_off(c, i) + 8, v, a);
        lemma_word_put(y2, c + 24, one_up(count_of(ws, c)), a);
        lemma_word_put(ws, slot_off(c, i), k, c + 16);
        lemma_word_put(y1, slot_off(c, i) + 8, v, c + 16);
        lemma_word_put(y2, c + 24, one_up(count_of(ws, c)), c + 16);
        lemma_word_put(y3, c + 16, bumped(seq_of(ws, c)), a);
    }
    assert(word(xs, c + 8) == word(ws, c + 8));
    assert(slot_changed(ws, xs, c, i));
    lemma_occupied_change(ws, xs, c, i, cap);
    lemma_occupied_bound(xs, c, cap);
    lemma_node(ws, off_of(k) as int);
    lemma_slot_wf(ws, xs, c, i);
}

/// Emptying a slot keeps the region in order.
pub proof fn lemma_without_entry(ws: Seq<u64>, c: int, i: int)
    requires
        wf(ws),
        is_table(ws, c),
        0 <= i < cap_of(ws, c),
        key_at(ws, c, i) != H_INVALID,
    ensures
        slot_changed(ws, without_entry(ws, c, i), c, i),
        key_at(without_entry(ws, c, i), c, i) == H_INVALID,
        val_at(without_entry(ws, c, i), c, i) == H_INVALID,
        count_of(without_entry(ws, c, i), c) == count_of(ws, c) - 1,
        wf(without_entry(ws, c, i)),
{
    let xs = without_entry(ws, c, i);
    lemma_node(ws, c);
    let cap = cap_of(ws, c);
    let y1 = put(ws, slot_off(c, i), H_INVALID);
    let y2 = put(y1, slot_off(c, i) + 8, H_INVALID);
    let y3 = put(y2, c + 24, one_down(count_of(ws, c)));
    assert forall|a: int| #[trigger]
        word(xs, a) == if a == c + 16 {
            bumped(seq_of(ws, c))
        } else if a == c + 24 {
            one_down(count_of(ws, c))
        } else if a == slot_off(c, i) {
            0
        } else if a == slot_off(c, i) + 8 {
            0
        } else {
            word(ws, a)
        } by {
        lemma_word_put(ws, slot_off(c, i), H_INVALID, a);
        lemma_word_put(y1, slot_off(c, i) + 8, H_INVALID, a);
        lemma_word_put(y2, c + 24, one_down(count_of(ws, c)), a);
        lemma_word_put(ws, slot_off(c, i), H_INVALID, c + 16);
        lemma_word_put(y1, slot_off(c, i) + 8, H_INVALID, c + 16);
        lemma_word_put(y2, c + 24, one_down(count_of(ws, c)), c + 16);
        lemma_word_put(y3, c + 16, bumped(seq_of(ws, c)), a);
    }
    assert(word(xs, c + 8) == word(ws, c + 8));
    assert(slot_changed(ws, xs, c, i));
    lemma_occupied_change(ws, xs, c, i, cap);
    lemma_occupied_bound(xs, c, cap);
    lemma_slot_wf(ws, xs, c, i);
}

} // verus!
