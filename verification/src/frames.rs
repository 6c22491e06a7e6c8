//! What a change of the region leaves as it was: lookups and values.
use crate::layout::{
    appended, cap_of, changed_at, count_of, extent, is_list, is_node, is_table, item_at, key_at,
    key_bytes, lemma_appended_nodes, lemma_changed_nodes, lemma_key_same, lemma_node,
    lemma_str_same, lemma_used_key, live, not_a_key, same_in, seq_of, tag_of, val_at, wf,
};
use crate::memory::word;
use crate::node::{node_header, str_bytes, value_at, NODE_HDR};
use crate::tables::{
    has_key_at, lemma_changed_slots, lemma_slot_first, lemma_slot_from, slot_changed, slot_from,
    slot_of,
};
use crate::value::{container_kind, kind_of, off_of, H_INVALID, KIND_BIGINT, KIND_STR};
use vstd::prelude::*;
use vstd::utf8::encode_utf8;

verus! {

/// A lookup depends on which slots have the key alone.
pub proof fn lemma_slot_from_same(
    ws: Seq<u64>,
    xs: Seq<u64>,
    c: int,
    key: Seq<u8>,
    i: int,
    cap: int,
)
    requires
        forall|j: int|
            i <= j < cap ==> #[trigger] has_key_at(xs, c, j, key) == has_key_at(ws, c, j, key),
    ensures
        slot_from(xs, c, key, i, cap) == slot_from(ws, c, key, i, cap),
    decreases cap - i,
{
    if i < cap {
        assert(has_key_at(xs, c, i, key) == has_key_at(ws, c, i, key));
        lemma_slot_from_same(ws, xs, c, key, i + 1, cap);
    }
}

/// Everything that can be looked up in the object or map at `c` is the same in
/// `xs` as in `ws`.
pub open spec fn same_table(ws: Seq<u64>, xs: Seq<u64>, c: int) -> bool {
    &&& cap_of(xs, c) == cap_of(ws, c)
    &&& count_of(xs, c) == count_of(ws, c)
    &&& forall|i: int| 0 <= i < cap_of(ws, c) ==> #[trigger] key_at(xs, c, i) == key_at(ws, c, i)
    &&& forall|i: int| 0 <= i < cap_of(ws, c) ==> #[trigger] val_at(xs, c, i) == val_at(ws, c, i)
    &&& forall|i: int|
        0 <= i < cap_of(ws, c) && key_at(ws, c, i) != H_INVALID ==> #[trigger] key_bytes(xs, c, i)
            == key_bytes(ws, c, i)
    &&& forall|key: Seq<char>| #[trigger] slot_of(xs, c, key) == slot_of(ws, c, key)
}

/// Everything in the array at `a` is the same in `xs` as in `ws`.
pub open spec fn same_list(ws: Seq<u64>, xs: Seq<u64>, a: int) -> bool {
    &&& cap_of(xs, a) == cap_of(ws, a)
    &&& count_of(xs, a) == count_of(ws, a)
    &&& forall|i: int| 0 <= i < cap_of(ws, a) ==> #[trigger] item_at(xs, a, i) == item_at(ws, a, i)
}

/// An object or map whose slots and keys stay gives the same lookups.
pub proof fn lemma_same_table(ws: Seq<u64>, xs: Seq<u64>, c: int)
    requires
        cap_of(xs, c) == cap_of(ws, c),
        count_of(xs, c) == count_of(ws, c),
        forall|i: int| 0 <= i < cap_of(ws, c) ==> #[trigger] key_at(xs, c, i) == key_at(ws, c, i),
        forall|i: int| 0 <= i < cap_of(ws, c) ==> #[trigger] val_at(xs, c, i) == val_at(ws, c, i),
        forall|i: int|
            0 <= i < cap_of(ws, c) && key_at(ws, c, i) != H_INVALID ==> #[trigger] key_bytes(
                xs,
                c,
                i,
            ) == key_bytes(ws, c, i),
    ensures
        same_table(ws, xs, c),
{
    assert forall|key: Seq<char>| #[trigger] slot_of(xs, c, key) == slot_of(ws, c, key) by {
        let b = encode_utf8(key);
        assert forall|j: int| 0 <= j < cap_of(ws, c) implies #[trigger] has_key_at(xs, c, j, b)
            == has_key_at(ws, c, j, b) by {
            assert(key_at(xs, c, j) == key_at(ws, c, j));
            if key_at(ws, c, j) != H_INVALID {
                assert(key_bytes(xs, c, j) == key_bytes(ws, c, j));
            }
        }
        lemma_slot_from_same(ws, xs, c, b, 0, cap_of(ws, c));
    }
}

/// A value whose node stays as it is, but for its version, stays as it is.
pub proof fn lemma_value_same(ws: Seq<u64>, xs: Seq<u64>, h: u64)
    requires
        wf(ws),
        live(ws, h),
        !container_kind(kind_of(h)) ==> forall|a: int|
            off_of(h) <= a < off_of(h) + extent(ws, off_of(h) as int) && a != off_of(h) + 16
                ==> #[trigger] word(xs, a) == word(ws, a),
    ensures
        value_at(xs, h) == value_at(ws, h),
{
    let n = off_of(h) as int;
    lemma_node(ws, n);
    if !container_kind(kind_of(h)) {
        if kind_of(h) == KIND_STR {
            assert(word(xs, n + 8) == word(ws, n + 8));
            assert(str_bytes(xs, n) =~= str_bytes(ws, n)) by {
                assert forall|j: int| 0 <= j < node_header(ws, n).store implies str_bytes(xs, n)[j]
                    == str_bytes(ws, n)[j] by {
                    let a = n + NODE_HDR + 8 * (j / 8);
                    assert(word(xs, a) == word(ws, a));
                }
            }
        } else {
            assert(word(xs, n + NODE_HDR) == word(ws, n + NODE_HDR));
            if kind_of(h) == KIND_BIGINT {
                assert(word(xs, n + NODE_HDR + 8) == word(ws, n + NODE_HDR + 8));
            }
        }
    }
}

/// A new node changes no lookup and no value.
pub proof fn lemma_appended_frame(ws: Seq<u64>, xs: Seq<u64>, size: int)
    requires
        wf(ws),
        appended(ws, xs, size),
    ensures
        forall|c: int| #[trigger] is_table(ws, c) ==> is_table(xs, c) && same_table(ws, xs, c),
        forall|a: int| #[trigger] is_list(ws, a) ==> is_list(xs, a) && same_list(ws, xs, a),
        forall|h: u64| live(ws, h) ==> #[trigger] value_at(xs, h) == value_at(ws, h),
        forall|m: int| #[trigger] is_node(ws, m) ==> seq_of(xs, m) == seq_of(ws, m),
{
    lemma_appended_nodes(ws, xs, size);
    assert forall|m: int| #[trigger] is_node(ws, m) implies seq_of(xs, m) == seq_of(ws, m) by {
        assert(same_in(ws, xs, m, m + extent(ws, m)));
        assert(word(xs, m + 16) == word(ws, m + 16));
    }
    assert forall|c: int| #[trigger] is_table(ws, c) implies is_table(xs, c) && same_table(
        ws,
        xs,
        c,
    ) by {
        assert(same_in(ws, xs, c, c + extent(ws, c)));
        assert(tag_of(xs, c) == tag_of(ws, c));
        assert(word(xs, c + 24) == word(ws, c + 24));
        assert forall|i: int|
            0 <= i < cap_of(ws, c) && key_at(ws, c, i) != H_INVALID implies #[trigger] key_bytes(
            xs,
            c,
            i,
        ) == key_bytes(ws, c, i) by {
            lemma_used_key(ws, c, i);
            let k = off_of(key_at(ws, c, i)) as int;
            lemma_node(ws, k);
            assert(same_in(ws, xs, k, k + extent(ws, k)));
            lemma_str_same(ws, xs, k);
        }
        lemma_same_table(ws, xs, c);
    }
    assert forall|a: int| #[trigger] is_list(ws, a) implies is_list(xs, a) && same_list(
        ws,
        xs,
        a,
    ) by {
        assert(same_in(ws, xs, a, a + extent(ws, a)));
        assert(tag_of(xs, a) == tag_of(ws, a));
        assert(word(xs, a + 24) == word(ws, a + 24));
    }
    assert forall|h: u64| live(ws, h) implies #[trigger] value_at(xs, h) == value_at(ws, h) by {
        let n = off_of(h) as int;
        assert(is_node(ws, n));
        assert(same_in(ws, xs, n, n + extent(ws, n)));
        lemma_value_same(ws, xs, h);
    }
}

/// A change at one node changes no lookup in another container, and no value of
/// another node. If the node is a container, it changes no value at all.
pub proof fn lemma_changed_frame(ws: Seq<u64>, xs: Seq<u64>, n: int)
    requires
        wf(ws),
        is_node(ws, n),
        changed_at(ws, xs, n),
        tag_of(ws, n) == KIND_STR ==> not_a_key(ws, n),
    ensures
        forall|c: int| #[trigger]
            is_table(ws, c) ==> is_table(xs, c) && (c != n ==> same_table(ws, xs, c)),
        forall|a: int| #[trigger]
            is_list(ws, a) ==> is_list(xs, a) && (a != n ==> same_list(ws, xs, a)),
        forall|h: u64|
            live(ws, h) && (off_of(h) != n || container_kind(tag_of(ws, n)))
                ==> #[trigger] value_at(xs, h) == value_at(ws, h),
        forall|m: int| m != n && #[trigger] is_node(ws, m) ==> seq_of(xs, m) == seq_of(ws, m),
{
    lemma_changed_nodes(ws, xs, n);
    lemma_changed_slots(ws, xs, n);
    assert forall|m: int| m != n && #[trigger] is_node(ws, m) implies seq_of(xs, m) == seq_of(
        ws,
        m,
    ) by {
        assert(same_in(ws, xs, m, m + extent(ws, m)));
        assert(word(xs, m + 16) == word(ws, m + 16));
    }
    assert forall|c: int| #[trigger] is_table(ws, c) implies is_table(xs, c) && (c != n
        ==> same_table(ws, xs, c)) by {
        assert(is_table(xs, c) == is_table(ws, c));
        if c != n {
            assert(same_in(ws, xs, c, c + extent(ws, c)));
            assert(word(xs, c + 24) == word(ws, c + 24));
            assert forall|i: int|
                0 <= i < cap_of(ws, c) && key_at(ws, c, i) != H_INVALID implies #[trigger] key_bytes(
                xs,
                c,
                i,
            ) == key_bytes(ws, c, i) by {
                assert(key_at(xs, c, i) == key_at(ws, c, i));
                lemma_key_same(ws, xs, n, c, i);
            }
            lemma_same_table(ws, xs, c);
        }
    }
    assert forall|a: int| #[trigger] is_list(ws, a) implies is_list(xs, a) && (a != n ==> same_list(
        ws,
        xs,
        a,
    )) by {
        assert(is_list(xs, a) == is_list(ws, a));
        if a != n {
            assert(same_in(ws, xs, a, a + extent(ws, a)));
            assert(word(xs, a + 24) == word(ws, a + 24));
        }
    }
    assert forall|h: u64|
        live(ws, h) && (off_of(h) != n || container_kind(
            tag_of(ws, n),
        )) implies #[trigger] value_at(xs, h) == value_at(ws, h) by {
        let m = off_of(h) as int;
        if m != n {
            assert(is_node(ws, m));
            assert(same_in(ws, xs, m, m + extent(ws, m)));
        }
        lemma_value_same(ws, xs, h);
    }
}

/// A slot of an object or map that changes changes no lookup of a key that the
/// slot neither had nor has.
pub proof fn lemma_slot_changed_lookup(
    ws: Seq<u64>,
    xs: Seq<u64>,
    c: int,
    i: int,
    key: Seq<char>,
)
    requires
        wf(ws),
        is_table(ws, c),
        slot_changed(ws, xs, c, i),
        !has_key_at(ws, c, i, encode_utf8(key)),
        !has_key_at(xs, c, i, encode_utf8(key)),
    ensures
        slot_of(xs, c, key) == slot_of(ws, c, key),
        slot_of(ws, c, key) matches Some(j) ==> j != i && val_at(xs, c, j) == val_at(ws, c, j),
{
    let b = encode_utf8(key);
    let cap = cap_of(ws, c);
    assert forall|j: int| 0 <= j < cap implies #[trigger] has_key_at(xs, c, j, b) == has_key_at(
        ws,
        c,
        j,
        b,
    ) by {
        if j != i {
            assert(key_at(xs, c, j) == key_at(ws, c, j));
            if key_at(ws, c, j) != H_INVALID {
                lemma_key_same(ws, xs, c, c, j);
            }
        }
    }
    lemma_slot_from_same(ws, xs, c, b, 0, cap);
    lemma_slot_from(ws, c, b, 0, cap);
}

/// Keys that differ have different bytes.
pub proof fn lemma_keys_differ(a: Seq<char>, b: Seq<char>)
    requires
        encode_utf8(a) == encode_utf8(b),
    ensures
        a == b,
{
    vstd::utf8::encode_utf8_decode_utf8(a);
    vstd::utf8::encode_utf8_decode_utf8(b);
}

/// In a region that is in order, the slot that has a key is the one that is found.
pub proof fn lemma_slot_unique(ws: Seq<u64>, c: int, i: int, key: Seq<char>)
    requires
        wf(ws),
        is_table(ws, c),
        0 <= i < cap_of(ws, c),
        has_key_at(ws, c, i, encode_utf8(key)),
    ensures
        slot_of(ws, c, key) == Some(i),
{
    let b = encode_utf8(key);
    lemma_node(ws, c);
    assert forall|j: int| 0 <= j < i implies !#[trigger] has_key_at(ws, c, j, b) by {
        if has_key_at(ws, c, j, b) {
            assert(key_bytes(ws, c, j) != key_bytes(ws, c, i));
        }
    }
    lemma_slot_first(ws, c, b, 0, cap_of(ws, c), i);
}

} // verus!
