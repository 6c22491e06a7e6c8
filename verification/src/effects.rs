//! The effect of each mutation on everything that can be looked up.
use crate::arena::{region_header, OFF_BUMP, SIZE_HEADER};
use crate::frames::{
    lemma_appended_frame, lemma_changed_frame, lemma_keys_differ, lemma_same_table,
    lemma_slot_changed_lookup, lemma_slot_unique, same_list, same_table,
};
use crate::layout::{
    appended, bump_of, cap_of, count_of, extent, is_list, is_node, is_table, item_at, key_at,
    key_bytes, lemma_allocated, lemma_appended_nodes, lemma_changed_nodes, lemma_key_same,
    lemma_node, lemma_occupied_bound, lemma_payload_len, lemma_str_same, lemma_used_key,
    lemma_with_scalar, live, not_a_key, occupied, same_in, seq_of, slot_off, slot_ok, tag_of,
    val_at, wf,
};
use crate::memory::{lemma_word_put, put, put_all, word};
use crate::node::{
    counter_at, incremented, node_allocated, node_init, rewritten, str_bytes, successor, value_at,
    with_scalar, NODE_HDR, STORE_LIMIT,
};
use crate::tables::{
    counted, entry_fits, free_from, free_slot, handle_for, handle_put, has_key_at, lemma_free_from,
    lemma_revalued, lemma_rewritten, lemma_rewritten_wf, lemma_slot_from, lemma_touched,
    lemma_val_not_a_key, lemma_with_entry, lemma_without_entry, not_a_value, one_up, replaceable,
    revalued, scalar_put, slot_changed, slot_of, touched, with_entry, without_entry,
};
use crate::trace::bumped;
use crate::value::{
    container_kind, kind_of, off_of, GraphError, Value, H_INVALID, KIND_INT, KIND_STR,
};
use crate::words::{halves, lower};
use vstd::prelude::*;
use vstd::utf8::{encode_utf8, encode_utf8_valid_utf8};

verus! {

/// A new node is nobody's value.
pub proof fn lemma_fresh_not_a_value(ws: Seq<u64>, xs: Seq<u64>, size: int)
    requires
        wf(ws),
        appended(ws, xs, size),
        !container_kind(tag_of(xs, bump_of(ws))),
    ensures
        not_a_value(xs, bump_of(ws)),
{
    let n = bump_of(ws);
    lemma_appended_nodes(ws, xs, size);
    lemma_appended_frame(ws, xs, size);
    assert forall|d: int, j: int| is_table(xs, d) && 0 <= j < cap_of(xs, d) implies off_of(
        #[trigger] val_at(xs, d, j),
    ) != n by {
        assert(is_node(ws, d));
        assert(tag_of(xs, d) == tag_of(ws, d));
        assert(is_table(ws, d));
        assert(val_at(xs, d, j) == val_at(ws, d, j));
        lemma_node(ws, d);
        assert(slot_ok(ws, d, j));
    }
    assert forall|d: int, j: int| is_list(xs, d) && 0 <= j < cap_of(xs, d) implies off_of(
        #[trigger] item_at(xs, d, j),
    ) != n by {
        assert(is_node(ws, d));
        assert(tag_of(xs, d) == tag_of(ws, d));
        assert(is_list(ws, d));
        assert(item_at(xs, d, j) == item_at(ws, d, j));
        lemma_node(ws, d);
    }
}

/// What was nobody's value stays so when a scalar is added.
pub proof fn lemma_not_a_value_appended(ws: Seq<u64>, xs: Seq<u64>, size: int, n: int)
    requires
        wf(ws),
        appended(ws, xs, size),
        !container_kind(tag_of(xs, bump_of(ws))),
        not_a_value(ws, n),
    ensures
        not_a_value(xs, n),
{
    lemma_appended_nodes(ws, xs, size);
    lemma_appended_frame(ws, xs, size);
    assert forall|d: int, j: int| is_table(xs, d) && 0 <= j < cap_of(xs, d) implies off_of(
        #[trigger] val_at(xs, d, j),
    ) != n by {
        assert(is_node(ws, d));
        assert(tag_of(xs, d) == tag_of(ws, d));
        assert(is_table(ws, d));
        assert(val_at(xs, d, j) == val_at(ws, d, j));
    }
    assert forall|d: int, j: int| is_list(xs, d) && 0 <= j < cap_of(xs, d) implies off_of(
        #[trigger] item_at(xs, d, j),
    ) != n by {
        assert(is_node(ws, d));
        assert(tag_of(xs, d) == tag_of(ws, d));
        assert(is_list(ws, d));
        assert(item_at(xs, d, j) == item_at(ws, d, j));
    }
}

/// A node that was no key is none after a scalar has been added.
pub proof fn lemma_not_a_key_appended(ws: Seq<u64>, xs: Seq<u64>, size: int, n: int)
    requires
        wf(ws),
        appended(ws, xs, size),
        !container_kind(tag_of(xs, bump_of(ws))),
        not_a_key(ws, n),
    ensures
        not_a_key(xs, n),
{
    lemma_appended_nodes(ws, xs, size);
    lemma_appended_frame(ws, xs, size);
    assert forall|c: int, i: int|
        is_table(xs, c) && 0 <= i < cap_of(xs, c) && #[trigger] key_at(xs, c, i)
            != H_INVALID implies off_of(key_at(xs, c, i)) != n by {
        assert(is_node(ws, c));
        assert(tag_of(xs, c) == tag_of(ws, c));
        assert(is_table(ws, c));
        assert(key_at(xs, c, i) == key_at(ws, c, i));
    }
}

/// `w` is `ws` with new nodes that hold a key and, maybe, a value.
pub open spec fn entry_prepared(
    ws: Seq<u64>,
    w: Seq<u64>,
    c: int,
    key: Seq<char>,
    k: u64,
    v: u64,
) -> bool {
    &&& wf(w)
    &&& is_table(w, c)
    &&& same_table(ws, w, c)
    &&& live(w, k)
    &&& kind_of(k) == KIND_STR
    &&& str_bytes(w, off_of(k) as int) == encode_utf8(key)
    &&& live(w, v)
    &&& not_a_key(w, off_of(v) as int)
    &&& not_a_value(w, off_of(k) as int)
    &&& off_of(k) != off_of(v)
}

/// The entry of a new key is found afterwards, and no other lookup changes.
pub proof fn lemma_new_entry(
    ws: Seq<u64>,
    w: Seq<u64>,
    c: int,
    key: Seq<char>,
    i: int,
    k: u64,
    v: u64,
)
    requires
        wf(ws),
        is_table(ws, c),
        slot_of(ws, c, key) is None,
        free_slot(ws, c) == Some(i),
        entry_prepared(ws, w, c, key, k, v),
    ensures
        0 <= i < cap_of(ws, c),
        wf(with_entry(w, c, i, k, v)),
        slot_changed(w, with_entry(w, c, i, k, v), c, i),
        slot_of(with_entry(w, c, i, k, v), c, key) == Some(i),
        val_at(with_entry(w, c, i, k, v), c, i) == v,
        count_of(with_entry(w, c, i, k, v), c) == count_of(ws, c) + 1,
        forall|other: Seq<char>|
            other != key ==> #[trigger] handle_for(with_entry(w, c, i, k, v), c, other)
                == handle_for(ws, c, other) && slot_of(with_entry(w, c, i, k, v), c, other)
                == slot_of(ws, c, other),
{
    let b = encode_utf8(key);
    let cap = cap_of(ws, c);
    let xs = with_entry(w, c, i, k, v);
    lemma_free_from(ws, c, 0, cap);
    lemma_slot_from(ws, c, b, 0, cap);
    assert forall|j: int|
        0 <= j < cap && j != i && key_at(w, c, j) != H_INVALID implies #[trigger] key_bytes(w, c, j)
        != str_bytes(w, off_of(k) as int) by {
        assert(key_at(w, c, j) == key_at(ws, c, j));
        lemma_used_key(ws, c, j);
        assert(key_bytes(w, c, j) == key_bytes(ws, c, j));
        assert(!has_key_at(ws, c, j, b));
    }
    assert(key_at(w, c, i) == key_at(ws, c, i));
    encode_utf8_valid_utf8(key);
    assert(entry_fits(w, c, i, k, v));
    lemma_with_entry(w, c, i, k, v);
    lemma_changed_nodes(w, xs, c);
    let kn = off_of(k) as int;
    lemma_node(w, kn);
    assert(same_in(w, xs, kn, kn + extent(w, kn)));
    lemma_str_same(w, xs, kn);
    assert(has_key_at(xs, c, i, b));
    assert(is_table(xs, c)) by {
        assert(is_node(xs, c) == is_node(w, c));
        assert(tag_of(xs, c) == tag_of(w, c));
    }
    lemma_slot_unique(xs, c, i, key);
    assert forall|other: Seq<char>| other != key implies #[trigger] handle_for(xs, c, other)
        == handle_for(ws, c, other) && slot_of(xs, c, other) == slot_of(ws, c, other) by {
        if encode_utf8(other) == b {
            lemma_keys_differ(other, key);
        }
        lemma_slot_changed_lookup(w, xs, c, i, other);
        assert(slot_of(w, c, other) == slot_of(ws, c, other));
        lemma_slot_from(ws, c, encode_utf8(other), 0, cap);
    }
}

/// There is no free slot if and only if all slots are in use.
pub proof fn lemma_free_slot(ws: Seq<u64>, c: int)
    requires
        wf(ws),
        is_table(ws, c),
    ensures
        free_slot(ws, c) is None <==> count_of(ws, c) == cap_of(ws, c),
{
    lemma_node(ws, c);
    lemma_free_from(ws, c, 0, cap_of(ws, c));
    lemma_occupied_full(ws, c, cap_of(ws, c));
}

/// As many slots are in use as there are if and only if each of them is.
proof fn lemma_occupied_full(ws: Seq<u64>, c: int, n: int)
    requires
        0 <= n,
    ensures
        occupied(ws, c, n) == n <==> (forall|j: int|
            0 <= j < n ==> #[trigger] key_at(ws, c, j) != H_INVALID),
    decreases n,
{
    if n > 0 {
        lemma_occupied_full(ws, c, n - 1);
        lemma_occupied_bound(ws, c, n - 1);
        if occupied(ws, c, n) == n {
            assert(key_at(ws, c, n - 1) != H_INVALID);
        }
    }
}

/// From `ws` to `xs` nothing has changed but what the object or map at `c` has
/// for `key`, and the value of the node at `n`.
pub open spec fn others_kept(ws: Seq<u64>, xs: Seq<u64>, c: int, key: Seq<char>, n: int) -> bool {
    &&& wf(xs)
    &&& region_header(xs).root == region_header(ws).root
    &&& forall|h: u64| #[trigger] live(ws, h) ==> live(xs, h)
    &&& is_table(xs, c)
    &&& cap_of(xs, c) == cap_of(ws, c)
    &&& forall|other: Seq<char>|
        other != key ==> #[trigger] handle_for(xs, c, other) == handle_for(ws, c, other) && slot_of(
            xs,
            c,
            other,
        ) == slot_of(ws, c, other)
    &&& forall|d: int| #[trigger]
        is_table(ws, d) ==> is_table(xs, d) && (d != c ==> same_table(ws, xs, d))
    &&& forall|a: int| #[trigger] is_list(ws, a) ==> is_list(xs, a) && same_list(ws, xs, a)
    &&& forall|h: u64|
        live(ws, h) && off_of(h) != n ==> #[trigger] value_at(xs, h) == value_at(ws, h)
}

/// Not even for `key` has anything changed.
pub open spec fn key_kept(ws: Seq<u64>, xs: Seq<u64>, c: int, key: Seq<char>) -> bool {
    &&& slot_of(xs, c, key) == slot_of(ws, c, key)
    &&& handle_for(xs, c, key) == handle_for(ws, c, key)
    &&& count_of(xs, c) == count_of(ws, c)
}

/// A new scalar changes no lookup.
pub proof fn lemma_scalar_added(ws: Seq<u64>, v: Value, c: int, key: Seq<char>)
    requires
        wf(ws),
        is_table(ws, c),
        !v.is_container(),
    ensures
        others_kept(ws, with_scalar(ws, v).1, c, key, -1),
        key_kept(ws, with_scalar(ws, v).1, c, key),
        same_table(ws, with_scalar(ws, v).1, c),
{
    lemma_with_scalar(ws, v);
    let xs = with_scalar(ws, v).1;
    lemma_slot_from(ws, c, encode_utf8(key), 0, cap_of(ws, c));
    if with_scalar(ws, v).0 is Some {
        lemma_appended_frame(ws, xs, NODE_HDR + v.size());
        lemma_appended_nodes(ws, xs, NODE_HDR + v.size());
        assert(same_table(ws, xs, c));
        assert forall|other: Seq<char>| #[trigger]
            handle_for(xs, c, other) == handle_for(ws, c, other) && slot_of(xs, c, other)
                == slot_of(ws, c, other) by {
            lemma_slot_from(ws, c, encode_utf8(other), 0, cap_of(ws, c));
        }
    } else {
        lemma_self_kept(ws, c, key);
    }
}

/// Nothing has changed from a region to itself.
pub proof fn lemma_self_kept(ws: Seq<u64>, c: int, key: Seq<char>)
    requires
        wf(ws),
        is_table(ws, c),
    ensures
        others_kept(ws, ws, c, key, -1),
        key_kept(ws, ws, c, key),
        same_table(ws, ws, c),
{
    assert forall|d: int| #[trigger] is_table(ws, d) implies same_table(ws, ws, d) by {
        lemma_same_table(ws, ws, d);
    }
}

/// A window on an object or map in which nothing is written changes no lookup.
pub proof fn lemma_touched_kept(ws: Seq<u64>, c: int, key: Seq<char>)
    requires
        wf(ws),
        is_table(ws, c),
    ensures
        others_kept(ws, touched(ws, c), c, key, -1),
        key_kept(ws, touched(ws, c), c, key),
{
    let xs = touched(ws, c);
    lemma_touched(ws, c);
    lemma_node(ws, c);
    lemma_changed_nodes(ws, xs, c);
    lemma_changed_frame(ws, xs, c);
    assert(word(xs, c + 8) == word(ws, c + 8));
    assert(word(xs, c + 24) == word(ws, c + 24));
    assert forall|i: int|
        0 <= i < cap_of(ws, c) && key_at(ws, c, i) != H_INVALID implies #[trigger] key_bytes(
        xs,
        c,
        i,
    ) == key_bytes(ws, c, i) by {
        assert(key_at(xs, c, i) == key_at(ws, c, i));
        lemma_key_same(ws, xs, c, c, i);
    }
    lemma_same_table(ws, xs, c);
    assert forall|other: Seq<char>| #[trigger]
        handle_for(xs, c, other) == handle_for(ws, c, other) && slot_of(xs, c, other) == slot_of(
            ws,
            c,
            other,
        ) by {
        lemma_slot_from(ws, c, encode_utf8(other), 0, cap_of(ws, c));
    }
    assert forall|a: int| #[trigger] is_list(ws, a) implies is_list(xs, a) && same_list(
        ws,
        xs,
        a,
    ) by {
        assert(a != c);
    }
}

/// Kept things stay kept from step to step.
pub proof fn lemma_kept_join(
    ws: Seq<u64>,
    w: Seq<u64>,
    xs: Seq<u64>,
    c: int,
    key: Seq<char>,
    n: int,
)
    requires
        others_kept(ws, w, c, key, -1),
        others_kept(w, xs, c, key, n),
        is_table(ws, c),
    ensures
        others_kept(ws, xs, c, key, n),
{
    assert forall|h: u64| #[trigger] live(ws, h) implies live(xs, h) by {
        assert(live(w, h));
    }
    assert forall|other: Seq<char>| other != key implies #[trigger] handle_for(xs, c, other)
        == handle_for(ws, c, other) && slot_of(xs, c, other) == slot_of(ws, c, other) by {
        assert(handle_for(w, c, other) == handle_for(ws, c, other));
    }
    assert forall|d: int| #[trigger] is_table(ws, d) implies is_table(xs, d) && (d != c
        ==> same_table(ws, xs, d)) by {
        assert(is_table(w, d));
        if d != c {
            assert(same_table(ws, w, d));
            assert(same_table(w, xs, d));
            assert forall|i: int| 0 <= i < cap_of(ws, d) implies #[trigger] key_at(xs, d, i)
                == key_at(ws, d, i) by {
                assert(key_at(w, d, i) == key_at(ws, d, i));
            }
            assert forall|i: int| 0 <= i < cap_of(ws, d) implies #[trigger] val_at(xs, d, i)
                == val_at(ws, d, i) by {
                assert(val_at(w, d, i) == val_at(ws, d, i));
            }
            assert forall|i: int|
                0 <= i < cap_of(ws, d) && key_at(ws, d, i) != H_INVALID implies #[trigger] key_bytes(
                xs,
                d,
                i,
            ) == key_bytes(ws, d, i) by {
                assert(key_at(w, d, i) == key_at(ws, d, i));
                assert(key_bytes(w, d, i) == key_bytes(ws, d, i));
            }
            assert forall|k: Seq<char>| #[trigger] slot_of(xs, d, k) == slot_of(ws, d, k) by {
                assert(slot_of(w, d, k) == slot_of(ws, d, k));
            }
        }
    }
    assert forall|a: int| #[trigger] is_list(ws, a) implies is_list(xs, a) && same_list(
        ws,
        xs,
        a,
    ) by {
        assert(is_list(w, a));
        assert(same_list(ws, w, a));
        assert(same_list(w, xs, a));
        assert forall|i: int| 0 <= i < cap_of(ws, a) implies #[trigger] item_at(xs, a, i)
            == item_at(ws, a, i) by {
            assert(item_at(w, a, i) == item_at(ws, a, i));
        }
    }
    assert forall|h: u64| live(ws, h) && off_of(h) != n implies #[trigger] value_at(xs, h)
        == value_at(ws, h) by {
        assert(live(w, h));
        assert(off_of(h) != -1);
        assert(value_at(w, h) == value_at(ws, h));
    }
}

/// Overwriting the node that `key` leads to.
pub proof fn lemma_replaced(ws: Seq<u64>, c: int, key: Seq<char>, v: Value)
    requires
        wf(ws),
        is_table(ws, c),
        !v.is_container(),
        slot_of(ws, c, key) is Some,
        replaceable(ws, handle_for(ws, c, key), v),
    ensures
        ({
            let h = handle_for(ws, c, key);
            let xs = rewritten(ws, off_of(h) as int, v);
            &&& others_kept(ws, xs, c, key, off_of(h) as int)
            &&& key_kept(ws, xs, c, key)
            &&& live(xs, h)
            &&& value_at(xs, h) == v
        }),
{
    let cap = cap_of(ws, c);
    lemma_slot_from(ws, c, encode_utf8(key), 0, cap);
    let i = slot_of(ws, c, key).unwrap();
    let h = val_at(ws, c, i);
    let n = off_of(h) as int;
    let xs = rewritten(ws, n, v);
    lemma_used_key(ws, c, i);
    lemma_val_not_a_key(ws, c, i);
    lemma_rewritten(ws, h, v);
    lemma_rewritten_wf(ws, h, v);
    lemma_changed_nodes(ws, xs, n);
    lemma_changed_frame(ws, xs, n);
    assert(c != n);
    assert(same_table(ws, xs, c));
    assert forall|other: Seq<char>| #[trigger]
        handle_for(xs, c, other) == handle_for(ws, c, other) && slot_of(xs, c, other) == slot_of(
            ws,
            c,
            other,
        ) by {
        lemma_slot_from(ws, c, encode_utf8(other), 0, cap);
    }
    assert forall|a: int| #[trigger] is_list(ws, a) implies is_list(xs, a) && same_list(
        ws,
        xs,
        a,
    ) by {
        assert(a != n);
    }
    assert forall|d: int| #[trigger] is_table(ws, d) implies is_table(xs, d) && (d != c
        ==> same_table(ws, xs, d)) by {
        assert(d != n);
    }
}

/// Giving the slot of `key` another value.
pub proof fn lemma_relinked(ws: Seq<u64>, c: int, key: Seq<char>, v: u64)
    requires
        wf(ws),
        is_table(ws, c),
        slot_of(ws, c, key) is Some,
        live(ws, v),
        not_a_key(ws, off_of(v) as int),
    ensures
        ({
            let i = slot_of(ws, c, key).unwrap();
            let xs = revalued(ws, c, i, v);
            &&& others_kept(ws, xs, c, key, -1)
            &&& slot_of(xs, c, key) == Some(i)
            &&& handle_for(xs, c, key) == v
            &&& count_of(xs, c) == count_of(ws, c)
        }),
{
    let cap = cap_of(ws, c);
    let b = encode_utf8(key);
    lemma_slot_from(ws, c, b, 0, cap);
    let i = slot_of(ws, c, key).unwrap();
    let xs = revalued(ws, c, i, v);
    lemma_revalued(ws, c, i, v);
    lemma_changed_nodes(ws, xs, c);
    lemma_changed_frame(ws, xs, c);
    lemma_key_same(ws, xs, c, c, i);
    assert(has_key_at(xs, c, i, b));
    assert(is_table(xs, c));
    lemma_slot_unique(xs, c, i, key);
    assert forall|other: Seq<char>| other != key implies #[trigger] handle_for(xs, c, other)
        == handle_for(ws, c, other) && slot_of(xs, c, other) == slot_of(ws, c, other) by {
        if encode_utf8(other) == b {
            lemma_keys_differ(other, key);
        }
        lemma_slot_changed_lookup(ws, xs, c, i, other);
    }
    assert forall|a: int| #[trigger] is_list(ws, a) implies is_list(xs, a) && same_list(
        ws,
        xs,
        a,
    ) by {
        assert(a != c);
    }
}

/// Putting a free slot to use for a new key.
pub proof fn lemma_linked(
    ws: Seq<u64>,
    w: Seq<u64>,
    c: int,
    key: Seq<char>,
    i: int,
    k: u64,
    v: u64,
)
    requires
        wf(ws),
        is_table(ws, c),
        slot_of(ws, c, key) is None,
        free_slot(ws, c) == Some(i),
        entry_prepared(ws, w, c, key, k, v),
        others_kept(ws, w, c, key, -1),
    ensures
        ({
            let xs = with_entry(w, c, i, k, v);
            &&& others_kept(ws, xs, c, key, -1)
            &&& slot_of(xs, c, key) == Some(i)
            &&& handle_for(xs, c, key) == v
            &&& count_of(xs, c) == count_of(ws, c) + 1
            &&& live(xs, v)
            &&& value_at(xs, v) == value_at(w, v)
        }),
{
    let xs = with_entry(w, c, i, k, v);
    lemma_new_entry(ws, w, c, key, i, k, v);
    lemma_changed_nodes(w, xs, c);
    lemma_changed_frame(w, xs, c);
    assert(others_kept(w, xs, c, key, -1)) by {
        assert forall|other: Seq<char>| other != key implies #[trigger] handle_for(xs, c, other)
            == handle_for(w, c, other) && slot_of(xs, c, other) == slot_of(w, c, other) by {
            assert(handle_for(w, c, other) == handle_for(ws, c, other));
        }
        assert forall|a: int| #[trigger] is_list(w, a) implies is_list(xs, a) && same_list(
            w,
            xs,
            a,
        ) by {
            assert(a != c);
        }
    }
    lemma_kept_join(ws, w, xs, c, key, -1);
}

/// The node that setting a scalar overwrites, if it does.
pub open spec fn overwritten(ws: Seq<u64>, c: int, key: Seq<char>, v: Value) -> int {
    let h = handle_for(ws, c, key);
    if slot_of(ws, c, key) is Some && replaceable(ws, h, v) {
        off_of(h) as int
    } else {
        -1
    }
}

/// The handle of the new node that setting a scalar makes, if it makes one.
pub open spec fn made(ws: Seq<u64>, c: int, key: Seq<char>, v: Value) -> Option<u64> {
    if slot_of(ws, c, key) is Some {
        with_scalar(ws, v).0
    } else {
        with_scalar(with_scalar(ws, Value::Str(key)).1, v).0
    }
}

/// The slot that `key` is in once it has been set: the one that it has, or the first free one.
pub open spec fn placed(ws: Seq<u64>, c: int, key: Seq<char>) -> Option<int> {
    match slot_of(ws, c, key) {
        Some(i) => Some(i),
        None => free_slot(ws, c),
    }
}

/// The effect of setting a scalar.
pub proof fn lemma_scalar_put(ws: Seq<u64>, c: int, key: Seq<char>, v: Value)
    requires
        wf(ws),
        is_table(ws, c),
        !v.is_container(),
    ensures
        ({
            let (r, xs) = scalar_put(ws, c, key, v);
            &&& others_kept(ws, xs, c, key, overwritten(ws, c, key, v))
            &&& r is Err ==> key_kept(ws, xs, c, key)
            &&& r is Ok ==> {
                &&& slot_of(xs, c, key) is Some
                &&& slot_of(xs, c, key) == placed(ws, c, key)
                &&& live(xs, handle_for(xs, c, key))
                &&& value_at(xs, handle_for(xs, c, key)) == v
                &&& overwritten(ws, c, key, v) < 0 ==> {
                    &&& made(ws, c, key, v) == Some(handle_for(xs, c, key))
                    &&& off_of(handle_for(xs, c, key)) >= bump_of(ws)
                }
                &&& count_of(xs, c) == count_of(ws, c) + if slot_of(ws, c, key) is None {
                    1int
                } else {
                    0
                }
            }
        }),
{
    let cap = cap_of(ws, c);
    lemma_slot_from(ws, c, encode_utf8(key), 0, cap);
    match slot_of(ws, c, key) {
        Some(i) => {
            let h = val_at(ws, c, i);
            if replaceable(ws, h, v) {
                lemma_replaced(ws, c, key, v);
            } else {
                lemma_with_scalar(ws, v);
                lemma_scalar_added(ws, v, c, key);
                if let (Some(new), w) = with_scalar(ws, v) {
                    lemma_relinked(w, c, key, new);
                    lemma_kept_join(ws, w, revalued(w, c, i, new), c, key, -1);
                }
            }
        },
        None => {
            match free_slot(ws, c) {
                None => {
                    lemma_touched_kept(ws, c, key);
                },
                Some(i) => {
                    lemma_scalar_inserted(ws, c, key, v, i);
                },
            }
        },
    }
}

/// The effect of setting a scalar under a new key.
proof fn lemma_scalar_inserted(ws: Seq<u64>, c: int, key: Seq<char>, v: Value, i: int)
    requires
        wf(ws),
        is_table(ws, c),
        !v.is_container(),
        slot_of(ws, c, key) is None,
        free_slot(ws, c) == Some(i),
    ensures
        ({
            let (r, xs) = scalar_put(ws, c, key, v);
            &&& others_kept(ws, xs, c, key, -1)
            &&& r is Err ==> key_kept(ws, xs, c, key)
            &&& r is Ok ==> {
                &&& slot_of(xs, c, key) is Some
                &&& slot_of(xs, c, key) == placed(ws, c, key)
                &&& live(xs, handle_for(xs, c, key))
                &&& value_at(xs, handle_for(xs, c, key)) == v
                &&& made(ws, c, key, v) == Some(handle_for(xs, c, key))
                &&& off_of(handle_for(xs, c, key)) >= bump_of(ws)
                &&& count_of(xs, c) == count_of(ws, c) + 1
            }
        }),
{
    let kv = Value::Str(key);
    lemma_with_scalar(ws, kv);
    lemma_scalar_added(ws, kv, c, key);
    match with_scalar(ws, kv) {
        (None, w1) => {
            lemma_touched_kept(w1, c, key);
            lemma_kept_join(ws, w1, touched(w1, c), c, key, -1);
        },
        (Some(k), w1) => {
            lemma_with_scalar(w1, v);
            lemma_scalar_added(w1, v, c, key);
            let w2 = with_scalar(w1, v).1;
            lemma_kept_join(ws, w1, w2, c, key, -1);
            match with_scalar(w1, v).0 {
                None => {
                    lemma_touched_kept(w2, c, key);
                    lemma_kept_join(ws, w2, touched(w2, c), c, key, -1);
                },
                Some(new) => {
                    let size = NODE_HDR + kv.size();
                    let size2 = NODE_HDR + v.size();
                    lemma_entry_prepared(ws, w1, w2, c, key, k, new, size, size2);
                    lemma_linked(ws, w2, c, key, i, k, new);
                },
            }
        },
    }
}

/// Two new nodes, one for a key and one for its value, make an entry.
proof fn lemma_entry_prepared(
    ws: Seq<u64>,
    w1: Seq<u64>,
    w2: Seq<u64>,
    c: int,
    key: Seq<char>,
    k: u64,
    v: u64,
    size1: int,
    size2: int,
)
    requires
        wf(ws),
        wf(w1),
        wf(w2),
        is_table(ws, c),
        appended(ws, w1, size1),
        appended(w1, w2, size2),
        same_table(ws, w1, c),
        same_table(w1, w2, c),
        is_table(w1, c),
        is_table(w2, c),
        live(w1, k),
        off_of(k) == bump_of(ws),
        kind_of(k) == KIND_STR,
        str_bytes(w1, off_of(k) as int) == encode_utf8(key),
        live(w2, v),
        off_of(v) == bump_of(w1),
        !container_kind(kind_of(v)),
        not_a_key(w2, off_of(v) as int),
    ensures
        entry_prepared(ws, w2, c, key, k, v),
{
    lemma_appended_nodes(ws, w1, size1);
    lemma_appended_nodes(w1, w2, size2);
    lemma_fresh_not_a_value(ws, w1, size1);
    lemma_not_a_value_appended(w1, w2, size2, off_of(k) as int);
    let kn = off_of(k) as int;
    lemma_node(w1, kn);
    assert(same_in(w1, w2, kn, kn + extent(w1, kn)));
    lemma_str_same(w1, w2, kn);
    lemma_same_table_join(ws, w1, w2, c);
}

/// Lookups that are the same from step to step are the same.
pub proof fn lemma_same_table_join(ws: Seq<u64>, w: Seq<u64>, xs: Seq<u64>, c: int)
    requires
        same_table(ws, w, c),
        same_table(w, xs, c),
    ensures
        same_table(ws, xs, c),
{
    assert forall|i: int| 0 <= i < cap_of(ws, c) implies #[trigger] key_at(xs, c, i) == key_at(
        ws,
        c,
        i,
    ) by {
        assert(key_at(w, c, i) == key_at(ws, c, i));
    }
    assert forall|i: int| 0 <= i < cap_of(ws, c) implies #[trigger] val_at(xs, c, i) == val_at(
        ws,
        c,
        i,
    ) by {
        assert(val_at(w, c, i) == val_at(ws, c, i));
    }
    assert forall|i: int|
        0 <= i < cap_of(ws, c) && key_at(ws, c, i) != H_INVALID implies #[trigger] key_bytes(
        xs,
        c,
        i,
    ) == key_bytes(ws, c, i) by {
        assert(key_at(w, c, i) == key_at(ws, c, i));
        assert(key_bytes(w, c, i) == key_bytes(ws, c, i));
    }
    assert forall|k: Seq<char>| #[trigger] slot_of(xs, c, k) == slot_of(ws, c, k) by {
        assert(slot_of(w, c, k) == slot_of(ws, c, k));
    }
}

/// The effect of linking a node.
pub proof fn lemma_handle_put(ws: Seq<u64>, c: int, key: Seq<char>, child: u64)
    requires
        wf(ws),
        is_table(ws, c),
        live(ws, child),
        not_a_key(ws, off_of(child) as int),
    ensures
        ({
            let (r, xs) = handle_put(ws, c, key, child);
            &&& others_kept(ws, xs, c, key, -1)
            &&& r is Err ==> key_kept(ws, xs, c, key)
            &&& r is Ok ==> {
                &&& slot_of(xs, c, key) is Some
                &&& slot_of(xs, c, key) == placed(ws, c, key)
                &&& handle_for(xs, c, key) == child
                &&& count_of(xs, c) == count_of(ws, c) + if slot_of(ws, c, key) is None {
                    1int
                } else {
                    0
                }
            }
        }),
{
    lemma_slot_from(ws, c, encode_utf8(key), 0, cap_of(ws, c));
    match slot_of(ws, c, key) {
        Some(i) => {
            lemma_relinked(ws, c, key, child);
        },
        None => {
            let kv = Value::Str(key);
            lemma_with_scalar(ws, kv);
            lemma_scalar_added(ws, kv, c, key);
            let w = with_scalar(ws, kv).1;
            match with_scalar(ws, kv).0 {
                None => {
                    lemma_touched_kept(w, c, key);
                    lemma_kept_join(ws, w, touched(w, c), c, key, -1);
                },
                Some(k) => match free_slot(ws, c) {
                    None => {
                        lemma_touched_kept(w, c, key);
                        lemma_kept_join(ws, w, touched(w, c), c, key, -1);
                    },
                    Some(i) => {
                        let size = NODE_HDR + kv.size();
                        lemma_fresh_not_a_value(ws, w, size);
                        lemma_not_a_key_appended(ws, w, size, off_of(child) as int);
                        assert(entry_prepared(ws, w, c, key, k, child));
                        lemma_linked(ws, w, c, key, i, k, child);
                    },
                },
            }
        },
    }
}

/// The effect of deleting a key.
pub proof fn lemma_deleted(ws: Seq<u64>, c: int, key: Seq<char>)
    requires
        wf(ws),
        is_table(ws, c),
        slot_of(ws, c, key) is Some,
    ensures
        ({
            let xs = without_entry(ws, c, slot_of(ws, c, key).unwrap());
            &&& others_kept(ws, xs, c, key, -1)
            &&& slot_of(xs, c, key) is None
            &&& count_of(xs, c) == count_of(ws, c) - 1
        }),
{
    let cap = cap_of(ws, c);
    let b = encode_utf8(key);
    lemma_slot_from(ws, c, b, 0, cap);
    let i = slot_of(ws, c, key).unwrap();
    let xs = without_entry(ws, c, i);
    lemma_without_entry(ws, c, i);
    lemma_changed_nodes(ws, xs, c);
    lemma_changed_frame(ws, xs, c);
    lemma_node(ws, c);
    assert(is_table(xs, c));
    assert forall|other: Seq<char>| other != key implies #[trigger] handle_for(xs, c, other)
        == handle_for(ws, c, other) && slot_of(xs, c, other) == slot_of(ws, c, other) by {
        if encode_utf8(other) == b {
            lemma_keys_differ(other, key);
        }
        lemma_slot_changed_lookup(ws, xs, c, i, other);
    }
    assert forall|j: int| 0 <= j < cap implies !#[trigger] has_key_at(xs, c, j, b) by {
        if j != i && key_at(ws, c, j) != H_INVALID {
            assert(key_at(xs, c, j) == key_at(ws, c, j));
            lemma_key_same(ws, xs, c, c, j);
            assert(key_bytes(ws, c, j) != key_bytes(ws, c, i));
        }
    }
    crate::tables::lemma_slot_none(xs, c, b, 0, cap);
    assert forall|a: int| #[trigger] is_list(ws, a) implies is_list(xs, a) && same_list(
        ws,
        xs,
        a,
    ) by {
        assert(a != c);
    }
}

// Mutations under a claimed version.

proof fn lemma_put_commute(ws: Seq<u64>, a: int, x: u64, b: int, y: u64)
    requires
        a != b,
    ensures
        put(put(ws, a, x), b, y) == put(put(ws, b, y), a, x),
{
    assert(put(put(ws, a, x), b, y) =~= put(put(ws, b, y), a, x));
}

proof fn lemma_put_all_commute(ws: Seq<u64>, a: int, x: u64, off: int, vals: Seq<u64>)
    requires
        !(off <= a < off + 8 * vals.len()),
    ensures
        put_all(put(ws, a, x), off, vals) == put(put_all(ws, off, vals), a, x),
    decreases vals.len(),
{
    if vals.len() > 0 {
        lemma_put_all_commute(ws, a, x, off, vals.drop_last());
        lemma_put_commute(
            put_all(ws, off, vals.drop_last()),
            a,
            x,
            off + 8 * (vals.len() - 1),
            vals.last(),
        );
    }
}

proof fn lemma_node_init_commute(
    ws: Seq<u64>,
    a: int,
    x: u64,
    n: int,
    tag: u8,
    cap: u32,
    store: u32,
    node_size: u32,
)
    requires
        !(n <= a < n + NODE_HDR),
    ensures
        node_init(put(ws, a, x), n, tag, cap, store, node_size) == put(
            node_init(ws, n, tag, cap, store, node_size),
            a,
            x,
        ),
{
    let w1 = put(ws, n, halves(tag as u32, node_size));
    let w2 = put(w1, n + 8, halves(cap, store));
    let w3 = put(w2, n + 16, 0);
    lemma_put_commute(ws, a, x, n, halves(tag as u32, node_size));
    lemma_put_commute(w1, a, x, n + 8, halves(cap, store));
    lemma_put_commute(w2, a, x, n + 16, 0);
    lemma_put_commute(w3, a, x, n + 24, 0);
}

/// Creating a scalar does not depend on a word of another node.
pub proof fn lemma_with_scalar_commute(ws: Seq<u64>, v: Value, a: int, x: u64)
    requires
        wf(ws),
        !v.is_container(),
        SIZE_HEADER <= a < bump_of(ws),
    ensures
        with_scalar(put(ws, a, x), v).0 == with_scalar(ws, v).0,
        with_scalar(put(ws, a, x), v).1 == put(with_scalar(ws, v).1, a, x),
{
    reveal(wf);
    let p = put(ws, a, x);
    lemma_word_put(ws, a, x, 0);
    lemma_word_put(ws, a, x, 8);
    lemma_word_put(ws, a, x, 16);
    lemma_word_put(ws, a, x, 24);
    lemma_word_put(ws, a, x, 32);
    lemma_word_put(ws, a, x, 40);
    assert(region_header(p) == region_header(ws));
    if v.store() <= STORE_LIMIT {
        lemma_payload_len(v);
        let size = (NODE_HDR + v.size()) as u64;
        lemma_allocated(ws, size);
        let n = bump_of(ws);
        if n + size <= region_header(ws).capacity {
            let b = (n + size) as u64;
            assert(node_allocated(p, size) == (Some(n as u64), put(p, OFF_BUMP as int, b)));
            lemma_put_commute(ws, a, x, OFF_BUMP as int, b);
            let w = put(ws, OFF_BUMP as int, b);
            let cap = v.size() as u32;
            let store = v.store() as u32;
            lemma_node_init_commute(w, a, x, n, v.kind(), cap, store, lower(size));
            let y = node_init(w, n, v.kind(), cap, store, lower(size));
            lemma_put_all_commute(y, a, x, n + NODE_HDR, v.payload());
        } else {
            assert(node_allocated(p, size) == (None::<u64>, p));
        }
    }
}

/// `ws` after the version of the node at `c`, claimed at `seq`, is released.
pub open spec fn finished(ws: Seq<u64>, c: int, seq: u64) -> Seq<u64> {
    put(ws, c + 16, bumped(seq))
}

/// `ws` after slot `i` is put to use and the version, claimed at `seq`, released.
pub open spec fn entry_finished(
    ws: Seq<u64>,
    c: int,
    seq: u64,
    i: int,
    k: u64,
    v: u64,
) -> Seq<u64> {
    let w = put(ws, slot_off(c, i), k);
    let w = put(w, slot_off(c, i) + 8, v);
    finished(put(w, c + 24, one_up(count_of(w, c))), c, seq)
}

/// What inserting a new key with a scalar does to a region in which the version
/// of the object or map at `c` has been claimed at `seq`.
pub open spec fn scalar_inserted(ws: Seq<u64>, c: int, seq: u64, key: Seq<char>, v: Value) -> (
    Result<u64, GraphError>,
    Seq<u64>,
) {
    match free_slot(ws, c) {
        None => (Err(GraphError::ContainerFull), finished(ws, c, seq)),
        Some(i) => match with_scalar(ws, Value::Str(key)) {
            (None, w) => (Err(GraphError::RegionFull), finished(w, c, seq)),
            (Some(k), w) => match with_scalar(w, v) {
                (None, w) => (Err(GraphError::RegionFull), finished(w, c, seq)),
                (Some(new), w) => (Ok(new), entry_finished(w, c, seq, i, k, new)),
            },
        },
    }
}

/// What inserting a new key with a handle does to such a region.
pub open spec fn handle_inserted(ws: Seq<u64>, c: int, seq: u64, key: Seq<char>, child: u64) -> (
    Result<(), GraphError>,
    Seq<u64>,
) {
    match with_scalar(ws, Value::Str(key)) {
        (None, w) => (Err(GraphError::RegionFull), finished(w, c, seq)),
        (Some(k), w) => match free_slot(w, c) {
            None => (Err(GraphError::ContainerFull), finished(w, c, seq)),
            Some(i) => (Ok(()), entry_finished(w, c, seq, i, k, child)),
        },
    }
}

/// The free slots do not depend on the version.
proof fn lemma_free_from_same(ws: Seq<u64>, xs: Seq<u64>, c: int, i: int, cap: int)
    requires
        forall|j: int| i <= j < cap ==> #[trigger] key_at(xs, c, j) == key_at(ws, c, j),
    ensures
        free_from(xs, c, i, cap) == free_from(ws, c, i, cap),
    decreases cap - i,
{
    if i < cap {
        assert(key_at(xs, c, i) == key_at(ws, c, i));
        lemma_free_from_same(ws, xs, c, i + 1, cap);
    }
}

/// Claiming and releasing leaves what a window in which nothing is written leaves.
proof fn lemma_finished(ws: Seq<u64>, c: int, x: u64)
    ensures
        finished(put(ws, c + 16, x), c, seq_of(ws, c)) == touched(ws, c),
{
    assert(finished(put(ws, c + 16, x), c, seq_of(ws, c)) =~= touched(ws, c));
}

/// An entry made under a claimed version.
proof fn lemma_entry_finished(ws: Seq<u64>, c: int, x: u64, i: int, k: u64, v: u64)
    requires
        0 <= i,
    ensures
        entry_finished(put(ws, c + 16, x), c, seq_of(ws, c), i, k, v) == with_entry(ws, c, i, k, v),
{
    let p = put(ws, c + 16, x);
    let a = put(put(p, slot_off(c, i), k), slot_off(c, i) + 8, v);
    let b = put(put(ws, slot_off(c, i), k), slot_off(c, i) + 8, v);
    lemma_put_commute(ws, c + 16, x, slot_off(c, i), k);
    lemma_put_commute(put(ws, slot_off(c, i), k), c + 16, x, slot_off(c, i) + 8, v);
    assert(a == put(b, c + 16, x));
    assert(count_of(a, c) == count_of(ws, c)) by {
        lemma_word_put(b, c + 16, x, c + 24);
        lemma_word_put(put(ws, slot_off(c, i), k), slot_off(c, i) + 8, v, c + 24);
        lemma_word_put(ws, slot_off(c, i), k, c + 24);
    }
    let y = one_up(count_of(ws, c));
    lemma_put_commute(b, c + 16, x, c + 24, y);
    let d = put(b, c + 24, y);
    assert(seq_of(d, c) == seq_of(ws, c)) by {
        lemma_word_put(b, c + 24, y, c + 16);
        lemma_word_put(put(ws, slot_off(c, i), k), slot_off(c, i) + 8, v, c + 16);
        lemma_word_put(ws, slot_off(c, i), k, c + 16);
    }
    assert(put(put(d, c + 16, x), c + 16, bumped(seq_of(ws, c))) =~= put(
        d,
        c + 16,
        bumped(seq_of(ws, c)),
    ));
}

/// The free slot does not depend on the version, nor on new nodes.
proof fn lemma_free_slot_same(ws: Seq<u64>, w: Seq<u64>, c: int, x: u64)
    requires
        same_table(ws, w, c),
        SIZE_HEADER <= c,
    ensures
        free_slot(put(w, c + 16, x), c) == free_slot(ws, c),
{
    let p = put(w, c + 16, x);
    lemma_word_put(w, c + 16, x, c + 8);
    assert forall|j: int| 0 <= j < cap_of(ws, c) implies #[trigger] key_at(p, c, j) == key_at(
        ws,
        c,
        j,
    ) by {
        lemma_word_put(w, c + 16, x, slot_off(c, j));
        assert(key_at(w, c, j) == key_at(ws, c, j));
    }
    lemma_free_from_same(ws, p, c, 0, cap_of(ws, c));
}

/// Inserting a scalar under a claimed version is setting a scalar under a new key.
#[verifier::rlimit(40)]
#[verifier::spinoff_prover]
pub proof fn lemma_scalar_inserted_held(ws: Seq<u64>, c: int, key: Seq<char>, v: Value, x: u64)
    requires
        wf(ws),
        is_table(ws, c),
        !v.is_container(),
        slot_of(ws, c, key) is None,
    ensures
        ({
            let (r, xs) = scalar_inserted(put(ws, c + 16, x), c, seq_of(ws, c), key, v);
            &&& scalar_put(ws, c, key, v).1 == xs
            &&& match r {
                Ok(h) => scalar_put(ws, c, key, v).0 is Ok && h == handle_for(xs, c, key),
                Err(e) => scalar_put(ws, c, key, v).0 == Err::<(), GraphError>(e),
            }
        }),
{
    lemma_scalar_put(ws, c, key, v);
    lemma_node(ws, c);
    lemma_self_kept(ws, c, key);
    lemma_free_slot_same(ws, ws, c, x);
    lemma_finished(ws, c, x);
    lemma_free_from(ws, c, 0, cap_of(ws, c));
    let kv = Value::Str(key);
    lemma_with_scalar_commute(ws, kv, c + 16, x);
    lemma_with_scalar(ws, kv);
    lemma_scalar_added(ws, kv, c, key);
    let w1 = with_scalar(ws, kv).1;
    assert(seq_of(w1, c) == seq_of(ws, c)) by {
        if with_scalar(ws, kv).0 is Some {
            lemma_appended_frame(ws, w1, NODE_HDR + kv.size());
        }
    }
    lemma_finished(w1, c, x);
    if with_scalar(ws, kv).0 is Some {
        lemma_node(w1, c);
        lemma_with_scalar_commute(w1, v, c + 16, x);
        lemma_with_scalar(w1, v);
        let w2 = with_scalar(w1, v).1;
        assert(seq_of(w2, c) == seq_of(w1, c)) by {
            if with_scalar(w1, v).0 is Some {
                lemma_appended_frame(w1, w2, NODE_HDR + v.size());
            }
        }
        lemma_finished(w2, c, x);
        if with_scalar(w1, v).0 is Some && free_slot(ws, c) is Some {
            lemma_entry_finished(
                w2,
                c,
                x,
                free_slot(ws, c).unwrap(),
                with_scalar(ws, kv).0.unwrap(),
                with_scalar(w1, v).0.unwrap(),
            );
        }
    }
}

/// Inserting a handle under a claimed version is linking a node under a new key.
pub proof fn lemma_handle_inserted_held(ws: Seq<u64>, c: int, key: Seq<char>, child: u64, x: u64)
    requires
        wf(ws),
        is_table(ws, c),
        slot_of(ws, c, key) is None,
    ensures
        handle_inserted(put(ws, c + 16, x), c, seq_of(ws, c), key, child) == handle_put(
            ws,
            c,
            key,
            child,
        ),
{
    lemma_node(ws, c);
    lemma_free_from(ws, c, 0, cap_of(ws, c));
    let kv = Value::Str(key);
    lemma_with_scalar_commute(ws, kv, c + 16, x);
    lemma_with_scalar(ws, kv);
    lemma_scalar_added(ws, kv, c, key);
    let w1 = with_scalar(ws, kv).1;
    assert(seq_of(w1, c) == seq_of(ws, c)) by {
        if with_scalar(ws, kv).0 is Some {
            lemma_appended_frame(ws, w1, NODE_HDR + kv.size());
        }
    }
    lemma_finished(w1, c, x);
    if with_scalar(ws, kv).0 is Some {
        lemma_free_slot_same(ws, w1, c, x);
        if free_slot(ws, c) is Some {
            lemma_entry_finished(
                w1,
                c,
                x,
                free_slot(ws, c).unwrap(),
                with_scalar(ws, kv).0.unwrap(),
                child,
            );
        }
    }
}

// Counters.

/// Counting up is overwriting the number by the next one.
pub proof fn lemma_incremented(ws: Seq<u64>, n: int)
    ensures
        incremented(ws, n) == rewritten(ws, n, Value::Int(successor(counter_at(ws, n)))),
{
    let v = Value::Int(successor(counter_at(ws, n)));
    reveal_with_fuel(put_all, 2);
    assert(v.payload().drop_last() =~= Seq::<u64>::empty());
}

/// The effect of counting up the number that `key` leads to.
pub proof fn lemma_counted_up(ws: Seq<u64>, c: int, key: Seq<char>)
    requires
        wf(ws),
        is_table(ws, c),
        slot_of(ws, c, key) is Some,
        kind_of(handle_for(ws, c, key)) == KIND_INT,
    ensures
        ({
            let h = handle_for(ws, c, key);
            let next = successor(counter_at(ws, off_of(h) as int));
            let xs = incremented(ws, off_of(h) as int);
            &&& value_at(ws, h) == Value::Int(counter_at(ws, off_of(h) as int))
            &&& live(ws, h)
            &&& others_kept(ws, xs, c, key, off_of(h) as int)
            &&& key_kept(ws, xs, c, key)
            &&& value_at(xs, h) == Value::Int(next)
        }),
{
    let h = handle_for(ws, c, key);
    let v = Value::Int(successor(counter_at(ws, off_of(h) as int)));
    lemma_incremented(ws, off_of(h) as int);
    lemma_replaced(ws, c, key, v);
    lemma_slot_from(ws, c, encode_utf8(key), 0, cap_of(ws, c));
    lemma_node(ws, c);
    assert(slot_ok(ws, c, slot_of(ws, c, key).unwrap()));
}

/// The effect of incrementing a counter: what was a number is one more, anything
/// else starts at zero. Nothing changes if a new counter finds no space.
pub proof fn lemma_counted(ws: Seq<u64>, c: int, key: Seq<char>)
    requires
        wf(ws),
        is_table(ws, c),
    ensures
        ({
            let (r, xs) = counted(ws, c, key);
            let h = handle_for(ws, c, key);
            let is_int = slot_of(ws, c, key) is Some && kind_of(h) == KIND_INT;
            let n = if is_int {
                off_of(h) as int
            } else {
                -1
            };
            &&& others_kept(ws, xs, c, key, n)
            &&& is_int ==> r is Ok
            &&& r is Err ==> key_kept(ws, xs, c, key)
            &&& r is Err ==> scalar_put(ws, c, key, Value::Int(0)).0 is Err
            &&& r matches Ok(v) ==> {
                &&& slot_of(xs, c, key) is Some
                &&& slot_of(xs, c, key) == placed(ws, c, key)
                &&& live(xs, handle_for(xs, c, key))
                &&& value_at(xs, handle_for(xs, c, key)) == Value::Int(v)
                &&& is_int ==> (value_at(ws, h) matches Value::Int(u) && v == successor(u))
                &&& !is_int ==> v == 1
                &&& count_of(xs, c) == count_of(ws, c) + if slot_of(ws, c, key) is None {
                    1int
                } else {
                    0
                }
            }
        }),
{
    reveal(counted);
    let zero = Value::Int(0);
    let h = handle_for(ws, c, key);
    lemma_self_kept(ws, c, key);
    lemma_slot_from(ws, c, encode_utf8(key), 0, cap_of(ws, c));
    if slot_of(ws, c, key) is Some && kind_of(h) == KIND_INT {
        lemma_counted_up(ws, c, key);
    } else {
        lemma_scalar_put(ws, c, key, zero);
        let (r, w) = scalar_put(ws, c, key, zero);
        if r is Ok {
            let g = handle_for(w, c, key);
            assert(kind_of(g) == KIND_INT) by {
                assert(value_at(w, g) == zero);
            }
            assert(overwritten(ws, c, key, zero) == -1);
            lemma_counted_up(w, c, key);
            let xs = incremented(w, off_of(g) as int);
            lemma_kept_fresh(ws, w, xs, c, key, off_of(g) as int);
        }
    }
}

/// As `lemma_kept_join`, where the second step changes a node that is new.
#[verifier::spinoff_prover]
#[verifier::rlimit(30)]
proof fn lemma_kept_fresh(
    ws: Seq<u64>,
    w: Seq<u64>,
    xs: Seq<u64>,
    c: int,
    key: Seq<char>,
    n: int,
)
    requires
        others_kept(ws, w, c, key, -1),
        others_kept(w, xs, c, key, n),
        is_table(ws, c),
        forall|h: u64| #[trigger] live(ws, h) ==> off_of(h) != n,
    ensures
        others_kept(ws, xs, c, key, -1),
{
    lemma_kept_join(ws, w, xs, c, key, n);
    assert forall|h: u64| live(ws, h) && off_of(h) != -1 implies #[trigger] value_at(xs, h)
        == value_at(ws, h) by {
        assert(live(ws, h));
        assert(off_of(h) != n);
        assert(value_at(xs, h) == value_at(ws, h));
    }
}

} // verus!
