//! A new region, and its root.
use crate::arena::{
    initialized, region_header, FREE_EMPTY, INIT_READY, LOCK_FREE, OFF_BUMP, OFF_CAPACITY, OFF_FREE,
    OFF_LOCK, OFF_ROOT, OFF_STATE, SIZE_HEADER,
};
use crate::effects::{lemma_same_table_join, lemma_self_kept};
use crate::frames::{
    lemma_appended_frame, lemma_same_table, lemma_value_same, same_list, same_table,
};
use crate::layout::{
    bump_of, cap_of, count_of, extent, header_ok, is_list, is_node, is_table, item_at, key_at,
    key_bytes, lemma_appended_nodes, lemma_keys_apart_same, lemma_node, lemma_occupied_same,
    lemma_reaches_same, lemma_used_key, lemma_with_container, live, node_ok, reaches, slot_ok,
    table_kind, tag_of, val_at, wf,
};
use crate::memory::{in_words, lemma_word_put, put, word};
use crate::node::{
    container_size, node_header, str_bytes, value_at, with_container, DEFAULT_CAP, NODE_HDR,
};
use crate::tables::rooted;
use crate::value::{kind_of, off_of, H_INVALID, KIND_ARRAY, KIND_OBJECT, OFFSET_LIMIT};
use crate::words::{halves, lemma_halves};
use vstd::prelude::*;

verus! {

/// A new region is in order, and empty.
pub proof fn lemma_initialized(ws: Seq<u64>, capacity: u64, backend: u32)
    requires
        forall|a: int| SIZE_HEADER <= a ==> #[trigger] word(ws, a) == 0,
        SIZE_HEADER <= capacity,
        capacity < 8 * ws.len() + 8,
        capacity < OFFSET_LIMIT,
    ensures
        wf(initialized(ws, capacity, backend)),
        region_header(initialized(ws, capacity, backend)).root == H_INVALID,
        region_header(initialized(ws, capacity, backend)).capacity == capacity,
        region_header(initialized(ws, capacity, backend)).backend == backend,
        bump_of(initialized(ws, capacity, backend)) == SIZE_HEADER,
        forall|n: int| !is_node(initialized(ws, capacity, backend), n),
{
    reveal(wf);
    let w1 = put(ws, OFF_STATE as int, halves(INIT_READY, backend));
    let w2 = put(w1, OFF_CAPACITY as int, capacity);
    let w3 = put(w2, OFF_BUMP as int, SIZE_HEADER);
    let w4 = put(w3, OFF_FREE as int, FREE_EMPTY);
    let w5 = put(w4, OFF_ROOT as int, 0);
    let xs = put(w5, OFF_LOCK as int, LOCK_FREE);
    assert(xs == initialized(ws, capacity, backend));
    lemma_halves(INIT_READY, backend);
    assert forall|a: int| SIZE_HEADER <= a implies #[trigger] word(xs, a) == 0 by {
        assert(word(ws, a) == 0);
    }
    assert(bump_of(xs) == SIZE_HEADER);
    assert forall|n: int| !is_node(xs, n) by {
        if is_node(xs, n) {
            crate::layout::lemma_reaches_le(xs, SIZE_HEADER as int, n);
        }
    }
    assert(header_ok(xs));
    assert(reaches(xs, SIZE_HEADER as int, SIZE_HEADER as int));
}

/// The effect of getting the root: it is there afterwards, unless there is no space
/// for it, and everything that was in the graph stays.
pub proof fn lemma_rooted(ws: Seq<u64>)
    requires
        wf(ws),
    ensures
        ({
            let (root, xs) = rooted(ws);
            &&& wf(xs)
            &&& root is None ==> xs == ws
            &&& root matches Some(h) ==> live(xs, h) && kind_of(h) == KIND_OBJECT && region_header(
                xs,
            ).root == h
            &&& region_header(ws).root != H_INVALID ==> root == Some(region_header(ws).root) && xs
                == ws
            &&& region_header(ws).root == H_INVALID ==> {
                &&& root is Some <==> bump_of(ws) + container_size(KIND_OBJECT, DEFAULT_CAP)
                    <= region_header(ws).capacity
                &&& root matches Some(h) ==> off_of(h) == bump_of(ws) && count_of(
                    xs,
                    bump_of(ws),
                ) == 0
            }
            &&& forall|h: u64| #[trigger] live(ws, h) ==> live(xs, h)
            &&& forall|c: int| #[trigger] is_table(ws, c) ==> is_table(xs, c) && same_table(
                ws,
                xs,
                c,
            )
            &&& forall|a: int| #[trigger] is_list(ws, a) ==> is_list(xs, a) && same_list(ws, xs, a)
            &&& forall|h: u64| live(ws, h) ==> #[trigger] value_at(xs, h) == value_at(ws, h)
        }),
        in_words(ws, OFF_ROOT as int),
        word(with_container(ws, KIND_OBJECT, DEFAULT_CAP).1, OFF_ROOT as int) == region_header(
            ws,
        ).root,
        with_container(ws, KIND_OBJECT, DEFAULT_CAP).1.len() == ws.len(),
{
    reveal(wf);
    let size = container_size(KIND_OBJECT, DEFAULT_CAP) as int;
    let (h, w) = with_container(ws, KIND_OBJECT, DEFAULT_CAP);
    lemma_with_container(ws, KIND_OBJECT, DEFAULT_CAP);
    assert forall|c: int| #[trigger] is_table(ws, c) implies same_table(ws, ws, c) by {
        lemma_self_kept(ws, c, Seq::empty());
    }
    if region_header(ws).root == H_INVALID && h is Some {
        let root = h.unwrap();
        let xs = put(w, OFF_ROOT as int, root);
        lemma_appended_nodes(ws, w, size);
        lemma_appended_frame(ws, w, size);
        lemma_root_put(w, root);
        assert forall|g: u64| #[trigger] live(ws, g) implies live(xs, g) by {
            assert(is_node(w, off_of(g) as int));
            assert(live(w, g));
        }
        assert forall|c: int| #[trigger] is_table(ws, c) implies is_table(xs, c) && same_table(
            ws,
            xs,
            c,
        ) by {
            assert(is_table(w, c));
            lemma_same_table_join(ws, w, xs, c);
        }
        assert forall|a: int| #[trigger] is_list(ws, a) implies is_list(xs, a) && same_list(
            ws,
            xs,
            a,
        ) by {
            assert(is_list(w, a));
            assert forall|i: int| 0 <= i < cap_of(ws, a) implies #[trigger] item_at(xs, a, i)
                == item_at(ws, a, i) by {
                assert(item_at(w, a, i) == item_at(ws, a, i));
                assert(item_at(xs, a, i) == item_at(w, a, i));
            }
        }
        assert forall|g: u64| live(ws, g) implies #[trigger] value_at(xs, g) == value_at(ws, g) by {
            assert(live(w, g)) by {
                assert(is_node(w, off_of(g) as int));
            }
        }
    }
}

/// Entering a root changes nothing but the header.
proof fn lemma_root_put(ws: Seq<u64>, root: u64)
    requires
        wf(ws),
        live(ws, root),
        kind_of(root) == KIND_OBJECT,
    ensures
        ({
            let xs = put(ws, OFF_ROOT as int, root);
            &&& wf(xs)
            &&& region_header(xs).root == root
            &&& forall|m: int| #[trigger] is_node(xs, m) == is_node(ws, m)
            &&& forall|h: u64| #[trigger] live(xs, h) == live(ws, h)
            &&& forall|c: int| #[trigger] is_table(ws, c) ==> is_table(xs, c) && same_table(
                ws,
                xs,
                c,
            )
            &&& forall|a: int| #[trigger] is_list(ws, a) ==> is_list(xs, a) && same_list(ws, xs, a)
            &&& forall|h: u64| live(ws, h) ==> #[trigger] value_at(xs, h) == value_at(ws, h)
            &&& forall|a: int| a != OFF_ROOT ==> #[trigger] word(xs, a) == word(ws, a)
        }),
{
    reveal(wf);
    let xs = put(ws, OFF_ROOT as int, root);
    let b = SIZE_HEADER as int;
    lemma_node(ws, off_of(root) as int);
    assert forall|a: int| a != OFF_ROOT implies #[trigger] word(xs, a) == word(ws, a) by {
        lemma_word_put(ws, OFF_ROOT as int, root, a);
    }
    assert(region_header(xs).root == root);
    assert forall|m: int| b <= m implies #[trigger] extent(xs, m) == extent(ws, m) by {}
    assert forall|m: int| #[trigger] is_node(xs, m) == is_node(ws, m) by {
        lemma_reaches_same(ws, xs, b, m);
    }
    lemma_reaches_same(ws, xs, b, bump_of(ws));
    assert forall|h: u64| #[trigger] live(xs, h) == live(ws, h) by {
        let n = off_of(h) as int;
        assert(is_node(xs, n) == is_node(ws, n));
        if is_node(ws, n) {
            lemma_node(ws, n);
        }
    }
    assert forall|c: int| #[trigger] is_table(ws, c) implies is_table(xs, c) && same_table(
        ws,
        xs,
        c,
    ) by {
        lemma_node(ws, c);
        assert(is_node(xs, c));
        assert forall|i: int|
            0 <= i < cap_of(ws, c) && key_at(ws, c, i) != H_INVALID implies #[trigger] key_bytes(
            xs,
            c,
            i,
        ) == key_bytes(ws, c, i) by {
            lemma_used_key(ws, c, i);
            lemma_root_str(ws, xs, off_of(key_at(ws, c, i)) as int);
        }
        lemma_same_table(ws, xs, c);
    }
    assert forall|a: int| #[trigger] is_list(ws, a) implies is_list(xs, a) && same_list(
        ws,
        xs,
        a,
    ) by {
        lemma_node(ws, a);
        assert(is_node(xs, a));
    }
    assert forall|h: u64| live(ws, h) implies #[trigger] value_at(xs, h) == value_at(ws, h) by {
        lemma_node(ws, off_of(h) as int);
        lemma_value_same(ws, xs, h);
    }
    assert forall|m: int| #[trigger] is_node(xs, m) implies node_ok(xs, m) by {
        assert(is_node(ws, m));
        lemma_node(ws, m);
        if table_kind(tag_of(ws, m)) {
            assert(is_table(ws, m));
            assert(same_table(ws, xs, m));
            lemma_occupied_same(ws, xs, m, cap_of(ws, m));
            assert forall|i: int| 0 <= i < cap_of(xs, m) implies #[trigger] slot_ok(xs, m, i) by {
                assert(slot_ok(ws, m, i));
                assert(key_at(xs, m, i) == key_at(ws, m, i));
                assert(val_at(xs, m, i) == val_at(ws, m, i));
            }
            assert forall|i: int, j: int|
                0 <= i < j < cap_of(xs, m) && key_at(xs, m, i) != H_INVALID && key_at(xs, m, j)
                    != H_INVALID implies #[trigger] key_bytes(xs, m, i) != #[trigger] key_bytes(
                xs,
                m,
                j,
            ) by {
                assert(key_at(xs, m, i) == key_at(ws, m, i));
                assert(key_at(xs, m, j) == key_at(ws, m, j));
                assert(key_bytes(xs, m, i) == key_bytes(ws, m, i));
                assert(key_bytes(xs, m, j) == key_bytes(ws, m, j));
            }
        } else if tag_of(ws, m) == KIND_ARRAY {
            assert(is_list(ws, m));
            assert(same_list(ws, xs, m));
            assert forall|i: int| 0 <= i < cap_of(xs, m) implies #[trigger] item_at(xs, m, i)
                == H_INVALID || live(xs, item_at(xs, m, i)) by {
                assert(item_at(xs, m, i) == item_at(ws, m, i));
            }
        }
    }
    lemma_keys_apart_same(ws, xs);
}

/// A string does not depend on the root.
proof fn lemma_root_str(ws: Seq<u64>, xs: Seq<u64>, n: int)
    requires
        SIZE_HEADER <= n,
        forall|a: int| a != OFF_ROOT ==> #[trigger] word(xs, a) == word(ws, a),
    ensures
        str_bytes(xs, n) == str_bytes(ws, n),
{
    reveal(wf);
    assert(str_bytes(xs, n) =~= str_bytes(ws, n)) by {
        assert forall|j: int| 0 <= j < node_header(ws, n).store implies str_bytes(xs, n)[j]
            == str_bytes(ws, n)[j] by {
            assert(word(xs, n + NODE_HDR + 8 * (j / 8)) == word(ws, n + NODE_HDR + 8 * (j / 8)));
        }
    }
}

} // verus!
