//! What a well-formed region looks like, and what keeps it well-formed.
//!
//! The nodes of a region lie one behind the other, from the end of the region
//! header up to the first free byte. Everything behind that is zero.
use crate::arena::{odd, region_header, FREE_EMPTY, INIT_READY, LOCK_FREE, OFF_BUMP, SIZE_HEADER};
use crate::memory::{in_words, lemma_word_put_all, put, put_all, word};
use crate::node::{
    container_size, node_allocated, node_header, node_init, scalar_written, slots_for, str_bytes,
    value_at, with_container, with_scalar, NODE_HDR, STORE_LIMIT,
};
use crate::value::{
    handle, kind_of, lemma_bigint, lemma_handle, lemma_int, off_of, Value, H_INVALID, KIND_ARRAY,
    KIND_BIGINT, KIND_BOOL, KIND_F64, KIND_INT, KIND_MAP, KIND_NULL, KIND_OBJECT, KIND_STR,
    OFFSET_LIMIT,
};
use crate::words::{halves, lemma_halves, lemma_words_of, lower};
use vstd::prelude::*;
use vstd::utf8::{encode_utf8, encode_utf8_decode_utf8, encode_utf8_valid_utf8, valid_utf8};

verus! {

pub open spec fn bump_of(ws: Seq<u64>) -> int {
    region_header(ws).bump as int
}

pub open spec fn tag_of(ws: Seq<u64>, n: int) -> u8 {
    node_header(ws, n).tag
}

pub open spec fn cap_of(ws: Seq<u64>, n: int) -> int {
    node_header(ws, n).cap as int
}

pub open spec fn seq_of(ws: Seq<u64>, n: int) -> u64 {
    node_header(ws, n).seqlock
}

pub open spec fn count_of(ws: Seq<u64>, n: int) -> u64 {
    node_header(ws, n).count
}

/// Where slot `i` of the object or map at `c` is: its key, then its value.
pub open spec fn slot_off(c: int, i: int) -> int {
    c + NODE_HDR + 16 * i
}

/// The key handle of slot `i` of the object or map at `c`.
pub open spec fn key_at(ws: Seq<u64>, c: int, i: int) -> u64 {
    word(ws, slot_off(c, i))
}

/// The value handle of slot `i` of the object or map at `c`.
pub open spec fn val_at(ws: Seq<u64>, c: int, i: int) -> u64 {
    word(ws, slot_off(c, i) + 8)
}

/// Where slot `i` of the array at `a` is.
pub open spec fn item_off(a: int, i: int) -> int {
    a + NODE_HDR + 8 * i
}

/// The handle in slot `i` of the array at `a`.
pub open spec fn item_at(ws: Seq<u64>, a: int, i: int) -> u64 {
    word(ws, item_off(a, i))
}

pub open spec fn table_kind(tag: u8) -> bool {
    tag == KIND_OBJECT || tag == KIND_MAP
}

/// How many bytes the node at `n` takes up.
pub open spec fn extent(ws: Seq<u64>, n: int) -> int {
    let cap = cap_of(ws, n);
    if tag_of(ws, n) == KIND_ARRAY {
        NODE_HDR + 8 * cap
    } else if table_kind(tag_of(ws, n)) {
        NODE_HDR + 16 * cap
    } else {
        NODE_HDR + cap
    }
}

/// Going from node to node, one gets from `from` to `n`.
pub open spec fn reaches(ws: Seq<u64>, from: int, n: int) -> bool
    decreases n - from,
{
    from == n || from + extent(ws, from) <= n && reaches(ws, from + extent(ws, from), n)
}

/// A node starts at `n`.
pub open spec fn is_node(ws: Seq<u64>, n: int) -> bool {
    n < bump_of(ws) && reaches(ws, SIZE_HEADER as int, n)
}

/// `h` is the handle of a node.
pub open spec fn live(ws: Seq<u64>, h: u64) -> bool {
    h != H_INVALID && is_node(ws, off_of(h) as int) && kind_of(h) == tag_of(ws, off_of(h) as int)
}

/// `h` is the handle of an object or a map.
pub open spec fn live_table(ws: Seq<u64>, h: u64) -> bool {
    live(ws, h) && table_kind(kind_of(h))
}

/// `h` is the handle of an array.
pub open spec fn live_list(ws: Seq<u64>, h: u64) -> bool {
    live(ws, h) && kind_of(h) == KIND_ARRAY
}

pub open spec fn is_table(ws: Seq<u64>, n: int) -> bool {
    is_node(ws, n) && table_kind(tag_of(ws, n))
}

pub open spec fn is_list(ws: Seq<u64>, n: int) -> bool {
    is_node(ws, n) && tag_of(ws, n) == KIND_ARRAY
}

/// Slot `i` of the object or map at `c` is empty, or leads from a text to a node.
pub open spec fn slot_ok(ws: Seq<u64>, c: int, i: int) -> bool {
    let k = key_at(ws, c, i);
    let v = val_at(ws, c, i);
    ||| k == H_INVALID && v == H_INVALID
    ||| live(ws, k) && kind_of(k) == KIND_STR && valid_utf8(key_bytes(ws, c, i)) && live(ws, v)
}

/// The bytes of the key in slot `i`.
pub open spec fn key_bytes(ws: Seq<u64>, c: int, i: int) -> Seq<u8> {
    str_bytes(ws, off_of(key_at(ws, c, i)) as int)
}

/// How many of the first `n` slots are in use.
pub open spec fn occupied(ws: Seq<u64>, c: int, n: int) -> int
    decreases n,
{
    if n <= 0 {
        0
    } else {
        occupied(ws, c, n - 1) + if key_at(ws, c, n - 1) != H_INVALID {
            1int
        } else {
            0
        }
    }
}

/// The object or map at `c` is in order: no key occurs twice.
pub open spec fn table_ok(ws: Seq<u64>, c: int) -> bool {
    &&& forall|i: int| 0 <= i < cap_of(ws, c) ==> #[trigger] slot_ok(ws, c, i)
    &&& count_of(ws, c) == occupied(ws, c, cap_of(ws, c))
    &&& forall|i: int, j: int|
        0 <= i < j < cap_of(ws, c) && key_at(ws, c, i) != H_INVALID && key_at(ws, c, j)
            != H_INVALID ==> #[trigger] key_bytes(ws, c, i) != #[trigger] key_bytes(ws, c, j)
}

/// The array at `a` is in order: behind its length there is nothing.
pub open spec fn list_ok(ws: Seq<u64>, a: int) -> bool {
    &&& count_of(ws, a) <= cap_of(ws, a)
    &&& forall|i: int|
        0 <= i < cap_of(ws, a) ==> #[trigger] item_at(ws, a, i) == H_INVALID || live(
            ws,
            item_at(ws, a, i),
        )
    &&& forall|i: int|
        count_of(ws, a) <= i < cap_of(ws, a) ==> #[trigger] item_at(ws, a, i) == H_INVALID
}

/// The scalar at `n` has the payload that its kind asks for.
pub open spec fn leaf_ok(ws: Seq<u64>, n: int) -> bool {
    let tag = tag_of(ws, n);
    let cap = cap_of(ws, n);
    ||| (tag == KIND_NULL || tag == KIND_BOOL || tag == KIND_INT || tag == KIND_F64) && cap == 8
    ||| tag == KIND_BIGINT && cap == 16
    ||| tag == KIND_STR && cap % 8 == 0 && node_header(ws, n).store <= cap
}

/// The node at `n` is in order, and nobody is writing it.
pub open spec fn node_ok(ws: Seq<u64>, n: int) -> bool {
    &&& n % 8 == 0
    &&& !odd(seq_of(ws, n))
    &&& if table_kind(tag_of(ws, n)) {
        table_ok(ws, n)
    } else if tag_of(ws, n) == KIND_ARRAY {
        list_ok(ws, n)
    } else {
        leaf_ok(ws, n)
    }
}

/// The region header describes the memory.
pub open spec fn header_ok(ws: Seq<u64>) -> bool {
    let hdr = region_header(ws);
    &&& hdr.init_state == INIT_READY
    &&& hdr._pad == LOCK_FREE
    &&& hdr.free_top == FREE_EMPTY
    &&& SIZE_HEADER <= hdr.bump <= hdr.capacity
    &&& hdr.bump % 8 == 0
    &&& hdr.capacity < 8 * ws.len() + 8
    &&& hdr.capacity < OFFSET_LIMIT
    &&& hdr.root == H_INVALID || live(ws, hdr.root) && kind_of(hdr.root) == KIND_OBJECT
}

/// No key of an object or map is a value of the graph.
pub open spec fn keys_apart(ws: Seq<u64>) -> bool {
    &&& forall|c: int, i: int, d: int, j: int|
        #![trigger key_at(ws, c, i), val_at(ws, d, j)]
        is_table(ws, c) && 0 <= i < cap_of(ws, c) && is_table(ws, d) && 0 <= j < cap_of(ws, d)
            && key_at(ws, c, i) != H_INVALID ==> off_of(key_at(ws, c, i)) != off_of(
            val_at(ws, d, j),
        )
    &&& forall|c: int, i: int, d: int, j: int|
        #![trigger key_at(ws, c, i), item_at(ws, d, j)]
        is_table(ws, c) && 0 <= i < cap_of(ws, c) && is_list(ws, d) && 0 <= j < cap_of(ws, d)
            && key_at(ws, c, i) != H_INVALID ==> off_of(key_at(ws, c, i)) != off_of(
            item_at(ws, d, j),
        )
}

/// The region is in order, and nobody is writing to it.
#[verifier::opaque]
pub open spec fn wf(ws: Seq<u64>) -> bool {
    &&& header_ok(ws)
    &&& reaches(ws, SIZE_HEADER as int, bump_of(ws))
    &&& forall|n: int| #[trigger] is_node(ws, n) ==> node_ok(ws, n)
    &&& forall|a: int| bump_of(ws) <= a ==> #[trigger] word(ws, a) == 0
    &&& keys_apart(ws)
}

/// The region is in order afterwards, and every node that was there still is.
pub open spec fn kept(ws: Seq<u64>, xs: Seq<u64>) -> bool {
    wf(xs) && forall|h: u64| #[trigger] live(ws, h) ==> live(xs, h)
}

// Going from node to node.

pub proof fn lemma_reaches_le(ws: Seq<u64>, from: int, n: int)
    requires
        reaches(ws, from, n),
    ensures
        from <= n,
        from < n ==> from + extent(ws, from) <= n,
    decreases n - from,
{
    if from < n {
        lemma_reaches_le(ws, from + extent(ws, from), n);
    }
}

/// Nodes do not overlap.
pub proof fn lemma_reaches_order(ws: Seq<u64>, from: int, n: int, m: int)
    requires
        reaches(ws, from, n),
        reaches(ws, from, m),
        n < m,
    ensures
        n + extent(ws, n) <= m,
        reaches(ws, n + extent(ws, n), m),
    decreases n - from,
{
    lemma_reaches_le(ws, from, n);
    lemma_reaches_le(ws, from, m);
    if from == n {
        lemma_reaches_le(ws, from + extent(ws, from), m);
    } else {
        lemma_reaches_order(ws, from + extent(ws, from), n, m);
    }
}

pub proof fn lemma_reaches_step(ws: Seq<u64>, from: int, n: int)
    requires
        reaches(ws, from, n),
    ensures
        reaches(ws, from, n + extent(ws, n)),
    decreases n - from,
{
    lemma_reaches_le(ws, from, n);
    if from < n {
        lemma_reaches_step(ws, from + extent(ws, from), n);
    } else {
        assert(reaches(ws, n + extent(ws, n), n + extent(ws, n)));
    }
}

/// The way up to `n` depends on the extents of the nodes before `n` alone.
pub proof fn lemma_reaches_same(ws: Seq<u64>, xs: Seq<u64>, from: int, n: int)
    requires
        forall|m: int|
            from <= m < n && #[trigger] reaches(ws, from, m) ==> extent(xs, m) == extent(ws, m),
    ensures
        reaches(ws, from, n) == reaches(xs, from, n),
    decreases n - from,
{
    if from < n {
        assert(reaches(ws, from, from));
    }
    if from + extent(ws, from) <= n {
        let next = from + extent(ws, from);
        assert forall|m: int| next <= m < n && #[trigger] reaches(ws, next, m) implies extent(xs, m)
            == extent(ws, m) by {
            assert(reaches(ws, from, m));
        }
        lemma_reaches_same(ws, xs, next, n);
    }
}

/// What is known of a node of a well-formed region.
pub proof fn lemma_node(ws: Seq<u64>, n: int)
    requires
        wf(ws),
        is_node(ws, n),
    ensures
        node_ok(ws, n),
        SIZE_HEADER <= n,
        n + extent(ws, n) <= bump_of(ws),
        bump_of(ws) <= 8 * ws.len(),
        bump_of(ws) < OFFSET_LIMIT,
        extent(ws, n) % 8 == 0,
{
    reveal(wf);
    lemma_reaches_le(ws, SIZE_HEADER as int, n);
    lemma_reaches_order(ws, SIZE_HEADER as int, n, bump_of(ws));
}

/// Nobody is writing a node of a well-formed region.
pub proof fn lemma_not_locked(ws: Seq<u64>, h: u64)
    requires
        wf(ws),
        live(ws, h),
    ensures
        !odd(seq_of(ws, off_of(h) as int)),
{
    lemma_node(ws, off_of(h) as int);
}

/// Two nodes of a well-formed region do not overlap.
pub proof fn lemma_nodes_apart(ws: Seq<u64>, n: int, m: int)
    requires
        is_node(ws, n),
        is_node(ws, m),
        n != m,
    ensures
        n + extent(ws, n) <= m || m + extent(ws, m) <= n,
{
    if n < m {
        lemma_reaches_order(ws, SIZE_HEADER as int, n, m);
    } else {
        lemma_reaches_order(ws, SIZE_HEADER as int, m, n);
    }
}

// What a change leaves as it was.

/// `ws` and `xs` have the same words from `from` up to `to`.
pub open spec fn same_in(ws: Seq<u64>, xs: Seq<u64>, from: int, to: int) -> bool {
    forall|a: int| from <= a < to ==> #[trigger] word(xs, a) == word(ws, a)
}

pub proof fn lemma_occupied_same(ws: Seq<u64>, xs: Seq<u64>, c: int, n: int)
    requires
        forall|i: int| 0 <= i < n ==> #[trigger] key_at(xs, c, i) == key_at(ws, c, i),
    ensures
        occupied(xs, c, n) == occupied(ws, c, n),
    decreases n,
{
    if n > 0 {
        lemma_occupied_same(ws, xs, c, n - 1);
        assert(key_at(xs, c, n - 1) == key_at(ws, c, n - 1));
    }
}

pub proof fn lemma_occupied_bound(ws: Seq<u64>, c: int, n: int)
    requires
        0 <= n,
    ensures
        0 <= occupied(ws, c, n) <= n,
    decreases n,
{
    if n > 0 {
        lemma_occupied_bound(ws, c, n - 1);
    }
}

/// A string that lies in words that stay as they are stays as it is.
pub proof fn lemma_str_same(ws: Seq<u64>, xs: Seq<u64>, n: int)
    requires
        same_in(ws, xs, n, n + extent(ws, n)),
        tag_of(ws, n) == KIND_STR,
        leaf_ok(ws, n),
    ensures
        str_bytes(xs, n) == str_bytes(ws, n),
{
    assert(word(xs, n + 8) == word(ws, n + 8));
    assert(str_bytes(xs, n) =~= str_bytes(ws, n)) by {
        assert forall|j: int| 0 <= j < node_header(ws, n).store implies str_bytes(xs, n)[j]
            == str_bytes(ws, n)[j] by {
            assert(word(xs, n + NODE_HDR + 8 * (j / 8)) == word(ws, n + NODE_HDR + 8 * (j / 8)));
        }
    }
}

/// An object or map whose words, keys and nodes stay stays in order.
pub proof fn lemma_table_same(ws: Seq<u64>, xs: Seq<u64>, c: int)
    requires
        table_ok(ws, c),
        table_kind(tag_of(ws, c)),
        forall|a: int|
            c <= a < c + extent(ws, c) && a != c + 16 ==> #[trigger] word(xs, a) == word(ws, a),
        forall|h: u64| #[trigger] live(ws, h) ==> live(xs, h),
        forall|i: int|
            0 <= i < cap_of(ws, c) && key_at(ws, c, i) != H_INVALID ==> str_bytes(
                xs,
                off_of(key_at(ws, c, i)) as int,
            ) == #[trigger] key_bytes(ws, c, i),
    ensures
        table_ok(xs, c),
{
    assert(word(xs, c) == word(ws, c));
    assert(word(xs, c + 8) == word(ws, c + 8));
    assert(word(xs, c + 24) == word(ws, c + 24));
    let cap = cap_of(ws, c);
    assert forall|i: int| 0 <= i < cap implies #[trigger] key_at(xs, c, i) == key_at(ws, c, i)
        && val_at(xs, c, i) == val_at(ws, c, i) by {
        assert(word(xs, slot_off(c, i)) == word(ws, slot_off(c, i)));
        assert(word(xs, slot_off(c, i) + 8) == word(ws, slot_off(c, i) + 8));
    }
    assert forall|i: int| 0 <= i < cap implies #[trigger] slot_ok(xs, c, i) by {
        assert(slot_ok(ws, c, i));
        assert(key_at(xs, c, i) == key_at(ws, c, i));
    }
    lemma_occupied_same(ws, xs, c, cap);
    assert forall|i: int, j: int|
        0 <= i < j < cap && key_at(xs, c, i) != H_INVALID && key_at(xs, c, j)
            != H_INVALID implies #[trigger] key_bytes(xs, c, i) != #[trigger] key_bytes(
        xs,
        c,
        j,
    ) by {
        assert(key_at(xs, c, i) == key_at(ws, c, i));
        assert(key_at(xs, c, j) == key_at(ws, c, j));
        assert(key_bytes(ws, c, i) != key_bytes(ws, c, j));
    }
}

/// An array whose words and nodes stay stays in order.
pub proof fn lemma_list_same(ws: Seq<u64>, xs: Seq<u64>, a: int)
    requires
        list_ok(ws, a),
        tag_of(ws, a) == KIND_ARRAY,
        forall|b: int|
            a <= b < a + extent(ws, a) && b != a + 16 ==> #[trigger] word(xs, b) == word(ws, b),
        forall|h: u64| #[trigger] live(ws, h) ==> live(xs, h),
    ensures
        list_ok(xs, a),
{
    assert(word(xs, a + 8) == word(ws, a + 8));
    assert(word(xs, a + 24) == word(ws, a + 24));
    assert forall|i: int| 0 <= i < cap_of(ws, a) implies #[trigger] item_at(xs, a, i) == item_at(
        ws,
        a,
        i,
    ) by {
        assert(word(xs, item_off(a, i)) == word(ws, item_off(a, i)));
    }
}

/// No key of an object or map is at `n`.
pub open spec fn not_a_key(ws: Seq<u64>, n: int) -> bool {
    forall|c: int, i: int|
        is_table(ws, c) && 0 <= i < cap_of(ws, c) && #[trigger] key_at(ws, c, i) != H_INVALID
            ==> off_of(key_at(ws, c, i)) != n
}

/// From `ws` to `xs` only the node at `n` has changed, and it has kept its extent.
pub open spec fn changed_at(ws: Seq<u64>, xs: Seq<u64>, n: int) -> bool {
    &&& xs.len() == ws.len()
    &&& cap_of(xs, n) == cap_of(ws, n)
    &&& forall|a: int| !(n < a < n + extent(ws, n)) ==> #[trigger] word(xs, a) == word(ws, a)
}

/// A change at one node leaves all nodes where they are.
pub proof fn lemma_changed_nodes(ws: Seq<u64>, xs: Seq<u64>, n: int)
    requires
        wf(ws),
        is_node(ws, n),
        changed_at(ws, xs, n),
    ensures
        region_header(xs) == region_header(ws),
        reaches(xs, SIZE_HEADER as int, bump_of(xs)),
        forall|m: int| #[trigger] is_node(xs, m) == is_node(ws, m),
        forall|m: int|
            is_node(ws, m) ==> #[trigger] tag_of(xs, m) == tag_of(ws, m) && cap_of(xs, m)
                == cap_of(ws, m),
        forall|m: int| #[trigger] is_node(ws, m) ==> extent(xs, m) == extent(ws, m),
        forall|h: u64| #[trigger] live(xs, h) == live(ws, h),
        forall|m: int|
            m != n && #[trigger] is_node(ws, m) ==> same_in(ws, xs, m, m + extent(ws, m)),
{
    reveal(wf);
    lemma_node(ws, n);
    assert(word(xs, 0) == word(ws, 0) && word(xs, 8) == word(ws, 8) && word(xs, 16) == word(ws, 16)
        && word(xs, 24) == word(ws, 24) && word(xs, 32) == word(ws, 32) && word(xs, 40) == word(
        ws,
        40,
    ));
    let bump = bump_of(ws);
    assert forall|m: int| m != n && #[trigger] is_node(ws, m) implies same_in(
        ws,
        xs,
        m,
        m + extent(ws, m),
    ) by {
        lemma_nodes_apart(ws, n, m);
    }
    assert forall|m: int| is_node(ws, m) implies #[trigger] tag_of(xs, m) == tag_of(ws, m)
        && cap_of(xs, m) == cap_of(ws, m) by {
        if m != n {
            assert(same_in(ws, xs, m, m + extent(ws, m)));
            assert(word(xs, m) == word(ws, m));
            assert(word(xs, m + 8) == word(ws, m + 8));
        } else {
            assert(word(xs, m) == word(ws, m));
        }
    }
    assert forall|m: int| #[trigger] is_node(ws, m) implies extent(xs, m) == extent(ws, m) by {
        assert(tag_of(xs, m) == tag_of(ws, m));
    }
    assert forall|m: int| m <= bump implies reaches(xs, SIZE_HEADER as int, m) == #[trigger] reaches(
        ws,
        SIZE_HEADER as int,
        m,
    ) by {
        assert forall|x: int|
            SIZE_HEADER <= x < m && #[trigger] reaches(ws, SIZE_HEADER as int, x) implies extent(
            xs,
            x,
        ) == extent(ws, x) by {
            assert(is_node(ws, x));
        }
        lemma_reaches_same(ws, xs, SIZE_HEADER as int, m);
    }
    assert forall|m: int| #[trigger] is_node(xs, m) == is_node(ws, m) by {
        if m < bump {
            assert(reaches(xs, SIZE_HEADER as int, m) == reaches(ws, SIZE_HEADER as int, m));
        }
    }
    assert(reaches(xs, SIZE_HEADER as int, bump) == reaches(ws, SIZE_HEADER as int, bump));
    assert forall|h: u64| #[trigger] live(xs, h) == live(ws, h) by {
        let m = off_of(h) as int;
        assert(is_node(xs, m) == is_node(ws, m));
        if is_node(ws, m) {
            assert(tag_of(xs, m) == tag_of(ws, m));
        }
    }
}

/// A change at one node that leaves it in order leaves the region in order, if it
/// leaves the keys of other nodes alone.
pub proof fn lemma_changed_wf(ws: Seq<u64>, xs: Seq<u64>, n: int)
    requires
        wf(ws),
        is_node(ws, n),
        changed_at(ws, xs, n),
        tag_of(ws, n) == KIND_STR ==> not_a_key(ws, n),
        node_ok(xs, n),
        keys_apart(xs),
    ensures
        wf(xs),
{
    reveal(wf);
    lemma_changed_nodes(ws, xs, n);
    lemma_node(ws, n);
    assert forall|m: int| #[trigger] is_node(xs, m) implies node_ok(xs, m) by {
        assert(is_node(ws, m));
        if m != n {
            assert(same_in(ws, xs, m, m + extent(ws, m)));
            lemma_node(ws, m);
            assert(tag_of(xs, m) == tag_of(ws, m));
            assert(word(xs, m + 16) == word(ws, m + 16));
            if table_kind(tag_of(ws, m)) {
                assert forall|i: int|
                    0 <= i < cap_of(ws, m) && key_at(ws, m, i) != H_INVALID implies str_bytes(
                    xs,
                    off_of(key_at(ws, m, i)) as int,
                ) == #[trigger] key_bytes(ws, m, i) by {
                    lemma_key_same(ws, xs, n, m, i);
                }
                lemma_table_same(ws, xs, m);
            } else if tag_of(ws, m) == KIND_ARRAY {
                lemma_list_same(ws, xs, m);
            } else {
                assert(word(xs, m + 8) == word(ws, m + 8));
            }
        }
    }
}

/// A change at a node that is no key leaves every key as it was.
pub proof fn lemma_key_same(ws: Seq<u64>, xs: Seq<u64>, n: int, c: int, i: int)
    requires
        wf(ws),
        is_node(ws, n),
        changed_at(ws, xs, n),
        tag_of(ws, n) == KIND_STR ==> not_a_key(ws, n),
        is_table(ws, c),
        0 <= i < cap_of(ws, c),
        key_at(ws, c, i) != H_INVALID,
    ensures
        str_bytes(xs, off_of(key_at(ws, c, i)) as int) == key_bytes(ws, c, i),
{
    reveal(wf);
    lemma_changed_nodes(ws, xs, n);
    lemma_node(ws, c);
    assert(slot_ok(ws, c, i));
    let k = off_of(key_at(ws, c, i)) as int;
    lemma_node(ws, k);
    assert(k != n);
    lemma_str_same(ws, xs, k);
}

/// A change that leaves the slots of all containers alone keeps keys and values apart.
pub proof fn lemma_keys_apart_same(ws: Seq<u64>, xs: Seq<u64>)
    requires
        keys_apart(ws),
        forall|m: int| #[trigger] is_table(xs, m) ==> is_table(ws, m) && cap_of(xs, m) == cap_of(
            ws,
            m,
        ),
        forall|m: int| #[trigger] is_list(xs, m) ==> is_list(ws, m) && cap_of(xs, m) == cap_of(
            ws,
            m,
        ),
        forall|m: int, i: int|
            is_table(xs, m) && 0 <= i < cap_of(ws, m) ==> #[trigger] key_at(xs, m, i) == key_at(
                ws,
                m,
                i,
            ),
        forall|m: int, i: int|
            is_table(xs, m) && 0 <= i < cap_of(ws, m) ==> #[trigger] val_at(xs, m, i) == val_at(
                ws,
                m,
                i,
            ),
        forall|m: int, i: int|
            is_list(xs, m) && 0 <= i < cap_of(ws, m) ==> #[trigger] item_at(xs, m, i) == item_at(
                ws,
                m,
                i,
            ),
    ensures
        keys_apart(xs),
{
}

// A new node.

/// From `ws` to `xs` a node of `size` bytes has been added behind all others.
pub open spec fn appended(ws: Seq<u64>, xs: Seq<u64>, size: int) -> bool {
    let n = bump_of(ws);
    &&& xs.len() == ws.len()
    &&& bump_of(xs) == n + size
    &&& n + size <= region_header(ws).capacity
    &&& extent(xs, n) == size
    &&& forall|a: int|
        a != OFF_BUMP && !(n <= a < n + size) ==> #[trigger] word(xs, a) == word(ws, a)
}

/// A new node leaves all others where they are.
pub proof fn lemma_appended_nodes(ws: Seq<u64>, xs: Seq<u64>, size: int)
    requires
        wf(ws),
        appended(ws, xs, size),
    ensures
        region_header(xs) == (crate::arena::RegionHeader {
            bump: region_header(xs).bump,
            ..region_header(ws)
        }),
        reaches(xs, SIZE_HEADER as int, bump_of(xs)),
        forall|m: int| #[trigger] is_node(xs, m) == (is_node(ws, m) || m == bump_of(ws)),
        forall|m: int|
            is_node(ws, m) ==> #[trigger] tag_of(xs, m) == tag_of(ws, m) && cap_of(xs, m)
                == cap_of(ws, m),
        forall|m: int| #[trigger] is_node(ws, m) ==> extent(xs, m) == extent(ws, m),
        forall|h: u64| #[trigger] live(ws, h) ==> live(xs, h),
        forall|h: u64| #[trigger]
            live(xs, h) ==> live(ws, h) || off_of(h) == bump_of(ws) && kind_of(h) == tag_of(
                xs,
                bump_of(ws),
            ),
        forall|m: int| #[trigger] is_node(ws, m) ==> same_in(ws, xs, m, m + extent(ws, m)),
{
    reveal(wf);
    let n = bump_of(ws);
    let start = SIZE_HEADER as int;
    assert(word(xs, 0) == word(ws, 0) && word(xs, 8) == word(ws, 8) && word(xs, 24) == word(ws, 24)
        && word(xs, 32) == word(ws, 32) && word(xs, 40) == word(ws, 40));
    assert forall|m: int| #[trigger] is_node(ws, m) implies same_in(
        ws,
        xs,
        m,
        m + extent(ws, m),
    ) by {
        lemma_node(ws, m);
    }
    assert forall|m: int| is_node(ws, m) implies #[trigger] tag_of(xs, m) == tag_of(ws, m)
        && cap_of(xs, m) == cap_of(ws, m) by {
        assert(same_in(ws, xs, m, m + extent(ws, m)));
        assert(word(xs, m) == word(ws, m));
        assert(word(xs, m + 8) == word(ws, m + 8));
    }
    assert forall|m: int| #[trigger] is_node(ws, m) implies extent(xs, m) == extent(ws, m) by {
        assert(tag_of(xs, m) == tag_of(ws, m));
    }
    assert forall|m: int| m <= n implies reaches(xs, start, m) == #[trigger] reaches(
        ws,
        start,
        m,
    ) by {
        assert forall|x: int|
            start <= x < m && #[trigger] reaches(ws, start, x) implies extent(xs, x) == extent(
            ws,
            x,
        ) by {
            assert(is_node(ws, x));
        }
        lemma_reaches_same(ws, xs, start, m);
    }
    assert(reaches(ws, start, n));
    lemma_reaches_step(xs, start, n);
    assert forall|m: int| #[trigger] is_node(xs, m) == (is_node(ws, m) || m == n) by {
        if m <= n {
            assert(reaches(xs, start, m) == reaches(ws, start, m));
        } else if is_node(xs, m) {
            lemma_reaches_order(xs, start, n, m);
        }
    }
    assert forall|h: u64| #[trigger] live(ws, h) implies live(xs, h) by {
        assert(is_node(xs, off_of(h) as int));
        assert(tag_of(xs, off_of(h) as int) == tag_of(ws, off_of(h) as int));
    }
    assert forall|h: u64| #[trigger] live(xs, h) implies live(ws, h) || off_of(h) == n && kind_of(h)
        == tag_of(xs, n) by {
        if off_of(h) != n {
            assert(is_node(ws, off_of(h) as int));
            assert(tag_of(xs, off_of(h) as int) == tag_of(ws, off_of(h) as int));
        }
    }
}

/// The node that has been added refers to nothing.
pub open spec fn added_empty(ws: Seq<u64>, xs: Seq<u64>) -> bool {
    let n = bump_of(ws);
    &&& is_table(xs, n) ==> forall|i: int|
        0 <= i < cap_of(xs, n) ==> #[trigger] key_at(xs, n, i) == 0 && val_at(xs, n, i) == 0
    &&& is_list(xs, n) ==> forall|i: int|
        0 <= i < cap_of(xs, n) ==> #[trigger] item_at(xs, n, i) == 0
}

/// A new node that is in order, and that refers to nothing, leaves the region in order.
pub proof fn lemma_appended_wf(ws: Seq<u64>, xs: Seq<u64>, size: int)
    requires
        wf(ws),
        appended(ws, xs, size),
        size % 8 == 0,
        node_ok(xs, bump_of(ws)),
        added_empty(ws, xs),
    ensures
        wf(xs),
        not_a_key(xs, bump_of(ws)),
{
    reveal(wf);
    let n = bump_of(ws);
    lemma_appended_nodes(ws, xs, size);
    assert(header_ok(xs));
    assert forall|m: int| #[trigger] is_node(xs, m) implies node_ok(xs, m) by {
        if m != n {
            assert(is_node(ws, m));
            lemma_appended_node_ok(ws, xs, size, m);
        }
    }
    assert(not_a_key(xs, n)) by {
        assert forall|c: int, i: int|
            is_table(xs, c) && 0 <= i < cap_of(xs, c) && #[trigger] key_at(xs, c, i)
                != H_INVALID implies off_of(key_at(xs, c, i)) != n by {
            lemma_appended_slot(ws, xs, size, c, i);
        }
    }
    lemma_appended_keys_apart(ws, xs, size);
    assert forall|a: int| bump_of(xs) <= a implies #[trigger] word(xs, a) == 0 by {
        assert(word(ws, a) == 0);
    }
}

proof fn lemma_appended_node_ok(ws: Seq<u64>, xs: Seq<u64>, size: int, m: int)
    requires
        wf(ws),
        appended(ws, xs, size),
        is_node(ws, m),
    ensures
        node_ok(xs, m),
{
    reveal(wf);
    lemma_appended_nodes(ws, xs, size);
    assert(same_in(ws, xs, m, m + extent(ws, m)));
    lemma_node(ws, m);
    assert(tag_of(xs, m) == tag_of(ws, m));
    assert(word(xs, m + 16) == word(ws, m + 16));
    if table_kind(tag_of(ws, m)) {
        assert forall|i: int|
            0 <= i < cap_of(ws, m) && key_at(ws, m, i) != H_INVALID implies str_bytes(
            xs,
            off_of(key_at(ws, m, i)) as int,
        ) == #[trigger] key_bytes(ws, m, i) by {
            assert(slot_ok(ws, m, i));
            let k = off_of(key_at(ws, m, i)) as int;
            lemma_node(ws, k);
            assert(same_in(ws, xs, k, k + extent(ws, k)));
            lemma_str_same(ws, xs, k);
        }
        lemma_table_same(ws, xs, m);
    } else if tag_of(ws, m) == KIND_ARRAY {
        lemma_list_same(ws, xs, m);
    } else {
        assert(word(xs, m + 8) == word(ws, m + 8));
    }
}

proof fn lemma_appended_keys_apart(ws: Seq<u64>, xs: Seq<u64>, size: int)
    requires
        wf(ws),
        appended(ws, xs, size),
        added_empty(ws, xs),
    ensures
        keys_apart(xs),
{
    reveal(wf);
    assert forall|c: int, i: int, d: int, j: int|
        #![trigger key_at(xs, c, i), val_at(xs, d, j)]
        is_table(xs, c) && 0 <= i < cap_of(xs, c) && is_table(xs, d) && 0 <= j < cap_of(xs, d)
            && key_at(xs, c, i) != H_INVALID implies off_of(key_at(xs, c, i)) != off_of(
        val_at(xs, d, j),
    ) by {
        lemma_appended_slot(ws, xs, size, c, i);
        lemma_used_key(ws, c, i);
        lemma_appended_val(ws, xs, size, d, j);
    }
    assert forall|c: int, i: int, d: int, j: int|
        #![trigger key_at(xs, c, i), item_at(xs, d, j)]
        is_table(xs, c) && 0 <= i < cap_of(xs, c) && is_list(xs, d) && 0 <= j < cap_of(xs, d)
            && key_at(xs, c, i) != H_INVALID implies off_of(key_at(xs, c, i)) != off_of(
        item_at(xs, d, j),
    ) by {
        lemma_appended_slot(ws, xs, size, c, i);
        lemma_used_key(ws, c, i);
        lemma_appended_item(ws, xs, size, d, j);
    }
}

/// A value in a region with a new node was there before.
proof fn lemma_appended_val(ws: Seq<u64>, xs: Seq<u64>, size: int, d: int, j: int)
    requires
        wf(ws),
        appended(ws, xs, size),
        added_empty(ws, xs),
        is_table(xs, d),
        0 <= j < cap_of(xs, d),
    ensures
        val_at(xs, d, j) == 0 || is_table(ws, d) && cap_of(xs, d) == cap_of(ws, d) && val_at(
            xs,
            d,
            j,
        ) == val_at(ws, d, j),
{
    reveal(wf);
    lemma_appended_nodes(ws, xs, size);
    if d == bump_of(ws) {
        assert(key_at(xs, d, j) == 0);
    } else {
        assert(is_node(ws, d) && tag_of(xs, d) == tag_of(ws, d));
        assert(same_in(ws, xs, d, d + extent(ws, d)));
    }
}

/// An item in a region with a new node was there before.
proof fn lemma_appended_item(ws: Seq<u64>, xs: Seq<u64>, size: int, d: int, j: int)
    requires
        wf(ws),
        appended(ws, xs, size),
        added_empty(ws, xs),
        is_list(xs, d),
        0 <= j < cap_of(xs, d),
    ensures
        item_at(xs, d, j) == 0 || is_list(ws, d) && cap_of(xs, d) == cap_of(ws, d) && item_at(
            xs,
            d,
            j,
        ) == item_at(ws, d, j),
{
    reveal(wf);
    lemma_appended_nodes(ws, xs, size);
    if d != bump_of(ws) {
        assert(is_node(ws, d) && tag_of(xs, d) == tag_of(ws, d));
        assert(same_in(ws, xs, d, d + extent(ws, d)));
    }
}

/// A slot in use leads from a string node to a node.
pub proof fn lemma_used_key(ws: Seq<u64>, c: int, i: int)
    requires
        wf(ws),
        is_table(ws, c),
        0 <= i < cap_of(ws, c),
        key_at(ws, c, i) != H_INVALID,
    ensures
        live(ws, key_at(ws, c, i)),
        kind_of(key_at(ws, c, i)) == KIND_STR,
        valid_utf8(key_bytes(ws, c, i)),
        live(ws, val_at(ws, c, i)),
        off_of(key_at(ws, c, i)) >= SIZE_HEADER,
        off_of(key_at(ws, c, i)) < bump_of(ws),
{
    reveal(wf);
    lemma_node(ws, c);
    assert(slot_ok(ws, c, i));
    lemma_node(ws, off_of(key_at(ws, c, i)) as int);
}

/// A slot in use of a region with a new node was in use before.
proof fn lemma_appended_slot(ws: Seq<u64>, xs: Seq<u64>, size: int, c: int, i: int)
    requires
        wf(ws),
        appended(ws, xs, size),
        added_empty(ws, xs),
        is_table(xs, c),
        0 <= i < cap_of(xs, c),
        key_at(xs, c, i) != H_INVALID,
    ensures
        c != bump_of(ws),
        is_table(ws, c),
        cap_of(xs, c) == cap_of(ws, c),
        key_at(xs, c, i) == key_at(ws, c, i),
        off_of(key_at(ws, c, i)) != bump_of(ws),
{
    reveal(wf);
    lemma_appended_nodes(ws, xs, size);
    assert(c != bump_of(ws));
    assert(is_node(ws, c) && tag_of(xs, c) == tag_of(ws, c));
    assert(same_in(ws, xs, c, c + extent(ws, c)));
    assert(key_at(xs, c, i) == key_at(ws, c, i));
    lemma_node(ws, c);
    assert(slot_ok(ws, c, i));
}

/// What allocating gives in a region that is in order.
pub proof fn lemma_allocated(ws: Seq<u64>, size: u64)
    requires
        wf(ws),
    ensures
        node_allocated(ws, size) == if bump_of(ws) + size <= region_header(ws).capacity {
            (Some(bump_of(ws) as u64), put(ws, OFF_BUMP as int, (bump_of(ws) + size) as u64))
        } else {
            (None, ws)
        },
{
    reveal(wf);
}

// Scalars and containers that are created.

/// The payload of a value takes up as many words as its size says.
pub proof fn lemma_payload_len(v: Value)
    requires
        !v.is_container(),
    ensures
        8 * v.payload().len() == v.size(),
        v.store() <= v.size() < v.store() + 8,
        v.size() % 8 == 0,
{
}

/// A node that holds the payload of a value holds the value.
pub proof fn lemma_payload_value(ws: Seq<u64>, h: u64, v: Value)
    requires
        !v.is_container(),
        h != H_INVALID,
        kind_of(h) == v.kind(),
        forall|i: int|
            0 <= i < v.payload().len() ==> #[trigger] v.payload()[i] == word(
                ws,
                off_of(h) + NODE_HDR + 8 * i,
            ),
        v is Str ==> node_header(ws, off_of(h) as int).store == v.store(),
    ensures
        value_at(ws, h) == v,
        v matches Value::Str(text) ==> str_bytes(ws, off_of(h) as int) == encode_utf8(text),
{
    let n = off_of(h) as int;
    match v {
        Value::Str(text) => {
            let b = encode_utf8(text);
            assert(str_bytes(ws, n) =~= b) by {
                assert forall|j: int| 0 <= j < b.len() implies str_bytes(ws, n)[j] == b[j] by {
                    lemma_words_of(b, j);
                    assert(v.payload()[j / 8] == word(ws, n + NODE_HDR + 8 * (j / 8)));
                }
            }
            encode_utf8_valid_utf8(text);
            encode_utf8_decode_utf8(text);
        },
        Value::BigInt(x) => {
            assert(v.payload()[0] == word(ws, n + NODE_HDR + 8 * 0));
            assert(v.payload()[1] == word(ws, n + NODE_HDR + 8 * 1));
            lemma_bigint(x);
        },
        Value::Int(x) => {
            assert(v.payload()[0] == word(ws, n + NODE_HDR + 8 * 0));
            lemma_int(x);
        },
        _ => {
            assert(v.payload()[0] == word(ws, n + NODE_HDR + 8 * 0));
        },
    }
}

/// The words of a header that has been written.
pub proof fn lemma_node_init(
    ws: Seq<u64>,
    n: int,
    tag: u8,
    cap: u32,
    store: u32,
    node_size: u32,
    a: int,
)
    requires
        n % 8 == 0,
        0 <= n,
        n + NODE_HDR <= 8 * ws.len(),
    ensures
        node_init(ws, n, tag, cap, store, node_size).len() == ws.len(),
        word(node_init(ws, n, tag, cap, store, node_size), a) == if a == n {
            halves(tag as u32, node_size)
        } else if a == n + 8 {
            halves(cap, store)
        } else if a == n + 16 || a == n + 24 {
            0
        } else {
            word(ws, a)
        },
        tag_of(node_init(ws, n, tag, cap, store, node_size), n) == tag,
        cap_of(node_init(ws, n, tag, cap, store, node_size), n) == cap,
        node_header(node_init(ws, n, tag, cap, store, node_size), n).store == store,
        seq_of(node_init(ws, n, tag, cap, store, node_size), n) == 0,
        count_of(node_init(ws, n, tag, cap, store, node_size), n) == 0,
{
    lemma_halves(tag as u32, node_size);
    lemma_halves(cap, store);
}

/// The words of a scalar node that has been written.
pub proof fn lemma_scalar_written(ws: Seq<u64>, n: int, v: Value)
    requires
        !v.is_container(),
        v.store() <= STORE_LIMIT,
        n % 8 == 0,
        0 <= n,
        n + NODE_HDR + v.size() <= 8 * ws.len(),
    ensures
        scalar_written(ws, n, v).len() == ws.len(),
        forall|a: int|
            !(n <= a < n + NODE_HDR + v.size()) ==> #[trigger] word(scalar_written(ws, n, v), a)
                == word(ws, a),
        forall|i: int|
            0 <= i < v.payload().len() ==> #[trigger] v.payload()[i] == word(
                scalar_written(ws, n, v),
                n + NODE_HDR + 8 * i,
            ),
        tag_of(scalar_written(ws, n, v), n) == v.kind(),
        cap_of(scalar_written(ws, n, v), n) == v.size(),
        node_header(scalar_written(ws, n, v), n).store == v.store(),
        seq_of(scalar_written(ws, n, v), n) == 0,
{
    lemma_payload_len(v);
    let size = (NODE_HDR + v.size()) as u64;
    let node_size = lower(size);
    let y = node_init(ws, n, v.kind(), v.size() as u32, v.store() as u32, node_size);
    let xs = scalar_written(ws, n, v);
    assert(xs == put_all(y, n + NODE_HDR, v.payload()));
    assert forall|a: int|
        !(n <= a < n + NODE_HDR + v.size()) implies #[trigger] word(xs, a) == word(ws, a) by {
        lemma_word_put_all(y, n + NODE_HDR, v.payload(), a);
        lemma_node_init(ws, n, v.kind(), v.size() as u32, v.store() as u32, node_size, a);
    }
    lemma_node_init(ws, n, v.kind(), v.size() as u32, v.store() as u32, node_size, n);
    assert forall|i: int| 0 <= i < v.payload().len() implies #[trigger] v.payload()[i] == word(
        xs,
        n + NODE_HDR + 8 * i,
    ) by {
        let a = n + NODE_HDR + 8 * i;
        lemma_word_put_all(y, n + NODE_HDR, v.payload(), a);
        assert((a - (n + NODE_HDR)) / 8 == i);
        assert(in_words(y, a));
    }
    lemma_word_put_all(y, n + NODE_HDR, v.payload(), n);
    lemma_word_put_all(y, n + NODE_HDR, v.payload(), n + 8);
    lemma_word_put_all(y, n + NODE_HDR, v.payload(), n + 16);
}

/// Creating a scalar: it succeeds if there is space, adds one node, and the new
/// handle leads to the value.
pub proof fn lemma_with_scalar(ws: Seq<u64>, v: Value)
    requires
        wf(ws),
        !v.is_container(),
    ensures
        match with_scalar(ws, v) {
            (Some(h), xs) => {
                &&& h == handle(v.kind(), bump_of(ws) as u64)
                &&& off_of(h) == bump_of(ws)
                &&& kind_of(h) == v.kind()
                &&& appended(ws, xs, NODE_HDR + v.size())
                &&& kept(ws, xs)
                &&& wf(xs)
                &&& live(xs, h)
                &&& not_a_key(xs, bump_of(ws))
                &&& value_at(xs, h) == v
                &&& v matches Value::Str(text) ==> str_bytes(xs, off_of(h) as int)
                    == encode_utf8(text)
            },
            (None, xs) => xs == ws,
        },
        with_scalar(ws, v).0 is Some <==> v.store() <= STORE_LIMIT && bump_of(ws) + NODE_HDR
            + v.size() <= region_header(ws).capacity,
{
    reveal(wf);
    if v.store() <= STORE_LIMIT {
        lemma_payload_len(v);
        let size = (NODE_HDR + v.size()) as u64;
        lemma_allocated(ws, size);
        if bump_of(ws) + size <= region_header(ws).capacity {
            let n = bump_of(ws);
            let w = put(ws, OFF_BUMP as int, (n + size) as u64);
            let xs = scalar_written(w, n, v);
            let h = handle(v.kind(), n as u64);
            lemma_handle(v.kind(), n as u64);
            lemma_scalar_written(w, n, v);
            assert(word(xs, 16) == word(w, 16));
            assert forall|a: int|
                a != OFF_BUMP && !(n <= a < n + size) implies #[trigger] word(xs, a) == word(
                ws,
                a,
            ) by {
                assert(word(xs, a) == word(w, a));
            }
            assert(appended(ws, xs, size as int));
            assert(leaf_ok(xs, n));
            lemma_appended_wf(ws, xs, size as int);
            lemma_appended_nodes(ws, xs, size as int);
            assert(is_node(xs, n));
            lemma_payload_value(xs, h, v);
        }
    }
}

/// Creating a container: it succeeds if there is space, and adds one empty node.
pub proof fn lemma_with_container(ws: Seq<u64>, tag: u8, cap: u32)
    requires
        wf(ws),
        tag == KIND_OBJECT || tag == KIND_ARRAY || tag == KIND_MAP,
    ensures
        match with_container(ws, tag, cap) {
            (Some(h), xs) => {
                let n = bump_of(ws);
                &&& h == handle(tag, n as u64)
                &&& off_of(h) == n
                &&& kind_of(h) == tag
                &&& appended(ws, xs, container_size(tag, cap) as int)
                &&& kept(ws, xs)
                &&& wf(xs)
                &&& live(xs, h)
                &&& cap_of(xs, n) == slots_for(cap)
                &&& count_of(xs, n) == 0
                &&& table_kind(tag) ==> forall|i: int|
                    0 <= i < slots_for(cap) ==> #[trigger] key_at(xs, n, i) == 0
                &&& tag == KIND_ARRAY ==> forall|i: int|
                    0 <= i < slots_for(cap) ==> #[trigger] item_at(xs, n, i) == 0
            },
            (None, xs) => xs == ws,
        },
        with_container(ws, tag, cap).0 is Some <==> bump_of(ws) + container_size(tag, cap)
            <= region_header(ws).capacity,
{
    reveal(wf);
    let size = container_size(tag, cap);
    lemma_allocated(ws, size);
    if bump_of(ws) + size <= region_header(ws).capacity {
        let n = bump_of(ws);
        let w = put(ws, OFF_BUMP as int, (n + size) as u64);
        let xs = node_init(w, n, tag, slots_for(cap), 0, lower(size));
        lemma_handle(tag, n as u64);
        assert forall|a: int|
            a != OFF_BUMP && !(n <= a < n + NODE_HDR) implies #[trigger] word(xs, a) == word(
            ws,
            a,
        ) by {
            lemma_node_init(w, n, tag, slots_for(cap), 0, lower(size), a);
        }
        lemma_node_init(w, n, tag, slots_for(cap), 0, lower(size), n);
        lemma_node_init(w, n, tag, slots_for(cap), 0, lower(size), 16);
        assert(appended(ws, xs, size as int));
        assert forall|a: int| n + NODE_HDR <= a implies #[trigger] word(xs, a) == 0 by {
            assert(word(ws, a) == 0);
        }
        if table_kind(tag) {
            assert forall|i: int| 0 <= i < slots_for(cap) implies #[trigger] key_at(xs, n, i) == 0
                && val_at(xs, n, i) == 0 && slot_ok(xs, n, i) by {
                assert(word(xs, slot_off(n, i)) == 0);
                assert(word(xs, slot_off(n, i) + 8) == 0);
            }
            lemma_occupied_empty(xs, n, slots_for(cap) as int);
            assert forall|i: int| 0 <= i < slots_for(cap) implies #[trigger] slot_ok(xs, n, i) by {
                assert(key_at(xs, n, i) == 0);
            }
            assert(table_ok(xs, n));
        } else {
            assert forall|i: int| 0 <= i < slots_for(cap) implies #[trigger] item_at(xs, n, i)
                == 0 by {
                assert(word(xs, item_off(n, i)) == 0);
            }
            assert(list_ok(xs, n));
        }
        lemma_appended_wf(ws, xs, size as int);
        lemma_appended_nodes(ws, xs, size as int);
        assert(is_node(xs, n));
    }
}

pub proof fn lemma_occupied_empty(ws: Seq<u64>, c: int, n: int)
    requires
        forall|i: int| 0 <= i < n ==> #[trigger] key_at(ws, c, i) == H_INVALID,
    ensures
        occupied(ws, c, n) == 0,
    decreases n,
{
    if n > 0 {
        lemma_occupied_empty(ws, c, n - 1);
        assert(key_at(ws, c, n - 1) == H_INVALID);
    }
}

} // verus!
