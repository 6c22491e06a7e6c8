//! The effect of mutations on arrays.
use crate::arena::{odd, region_header};
use crate::frames::{lemma_changed_frame, same_list, same_table};
use crate::layout::{
    cap_of, changed_at, count_of, is_list, is_node, is_table, item_at, item_off, key_at, keys_apart,
    lemma_changed_nodes, lemma_changed_wf, lemma_node, list_ok, live, not_a_key, seq_of, tag_of,
    val_at, wf,
};
use crate::memory::{in_words, lemma_word_put, put, word};
use crate::node::value_at;
use crate::tables::{item_put, item_removed, lemma_changed_slots, lemma_touched, pushed, touched};
use crate::trace::bumped;
use crate::value::{off_of, GraphError, H_INVALID};
use vstd::prelude::*;

verus! {

/// From `ws` to `xs` nothing has changed but what slot `i` of the array at `a`
/// holds, and the length of the array.
pub open spec fn rest_kept(ws: Seq<u64>, xs: Seq<u64>, a: int, i: int) -> bool {
    &&& wf(xs)
    &&& region_header(xs) == region_header(ws)
    &&& forall|h: u64| #[trigger] live(ws, h) ==> live(xs, h)
    &&& is_list(xs, a)
    &&& cap_of(xs, a) == cap_of(ws, a)
    &&& forall|j: int|
        0 <= j < cap_of(ws, a) && j != i ==> #[trigger] item_at(xs, a, j) == item_at(ws, a, j)
    &&& forall|c: int| #[trigger] is_table(ws, c) ==> is_table(xs, c) && same_table(ws, xs, c)
    &&& forall|b: int| #[trigger]
        is_list(ws, b) ==> is_list(xs, b) && (b != a ==> same_list(ws, xs, b))
    &&& forall|h: u64| live(ws, h) ==> #[trigger] value_at(xs, h) == value_at(ws, h)
}

/// The handle can be put into an array.
pub open spec fn item_fits(ws: Seq<u64>, v: u64) -> bool {
    v == H_INVALID || live(ws, v) && not_a_key(ws, off_of(v) as int)
}

/// A change of one slot of an array, and of its length, keeps the region in order.
proof fn lemma_item_changed(ws: Seq<u64>, xs: Seq<u64>, a: int, i: int, v: u64)
    requires
        wf(ws),
        is_list(ws, a),
        changed_at(ws, xs, a),
        0 <= i < cap_of(ws, a),
        item_fits(ws, v),
        item_at(xs, a, i) == v,
        forall|j: int|
            0 <= j < cap_of(ws, a) && j != i ==> #[trigger] item_at(xs, a, j) == item_at(ws, a, j),
        count_of(ws, a) <= count_of(xs, a) <= cap_of(ws, a),
        v != H_INVALID ==> i < count_of(xs, a),
        !odd(seq_of(xs, a)),
    ensures
        rest_kept(ws, xs, a, i),
{
    reveal(wf);
    lemma_node(ws, a);
    lemma_changed_nodes(ws, xs, a);
    lemma_changed_slots(ws, xs, a);
    assert forall|h: u64| #[trigger] live(ws, h) implies live(xs, h) by {
        assert(is_node(xs, off_of(h) as int));
        if off_of(h) as int != a {
            crate::layout::lemma_nodes_apart(ws, a, off_of(h) as int);
        }
        lemma_node(ws, off_of(h) as int);
        assert(tag_of(xs, off_of(h) as int) == tag_of(ws, off_of(h) as int));
    }
    assert(list_ok(xs, a)) by {
        assert forall|j: int| 0 <= j < cap_of(xs, a) implies #[trigger] item_at(xs, a, j)
            == H_INVALID || live(xs, item_at(xs, a, j)) by {
            assert(item_at(ws, a, j) == H_INVALID || live(ws, item_at(ws, a, j)));
        }
        assert forall|j: int| count_of(xs, a) <= j < cap_of(xs, a) implies #[trigger] item_at(
            xs,
            a,
            j,
        ) == H_INVALID by {
            assert(item_at(ws, a, j) == H_INVALID);
        }
    }
    assert(keys_apart(xs)) by {
        assert forall|c: int, k: int, d: int, j: int|
            #![trigger key_at(xs, c, k), val_at(xs, d, j)]
            is_table(xs, c) && 0 <= k < cap_of(xs, c) && is_table(xs, d) && 0 <= j < cap_of(xs, d)
                && key_at(xs, c, k) != H_INVALID implies off_of(key_at(xs, c, k)) != off_of(
            val_at(xs, d, j),
        ) by {
            assert(key_at(xs, c, k) == key_at(ws, c, k));
            assert(val_at(xs, d, j) == val_at(ws, d, j));
        }
        assert forall|c: int, k: int, d: int, j: int|
            #![trigger key_at(xs, c, k), item_at(xs, d, j)]
            is_table(xs, c) && 0 <= k < cap_of(xs, c) && is_list(xs, d) && 0 <= j < cap_of(xs, d)
                && key_at(xs, c, k) != H_INVALID implies off_of(key_at(xs, c, k)) != off_of(
            item_at(xs, d, j),
        ) by {
            assert(key_at(xs, c, k) == key_at(ws, c, k));
            if d == a && j == i {
                if v == H_INVALID {
                    crate::layout::lemma_used_key(ws, c, k);
                }
            } else {
                assert(item_at(xs, d, j) == item_at(ws, d, j));
            }
        }
    }
    lemma_changed_wf(ws, xs, a);
    lemma_changed_frame(ws, xs, a);
}

/// The effect of setting a slot of an array.
pub proof fn lemma_item_put(ws: Seq<u64>, a: int, i: int, v: u64)
    requires
        wf(ws),
        is_list(ws, a),
        0 <= i < cap_of(ws, a),
        item_fits(ws, v),
    ensures
        rest_kept(ws, item_put(ws, a, i, v), a, i),
        item_at(item_put(ws, a, i, v), a, i) == v,
        count_of(item_put(ws, a, i, v), a) == if i + 1 > count_of(ws, a) {
            i + 1
        } else {
            count_of(ws, a) as int
        },
{
    let xs = item_put(ws, a, i, v);
    lemma_node(ws, a);
    let w1 = put(ws, item_off(a, i), v);
    let w2 = if i + 1 > count_of(ws, a) {
        put(w1, a + 24, (i + 1) as u64)
    } else {
        w1
    };
    assert forall|b: int| b != item_off(a, i) && b != a + 24 && b != a + 16 implies #[trigger] word(
        xs,
        b,
    ) == word(ws, b) by {
        lemma_word_put(w2, a + 16, bumped(seq_of(w2, a)), b);
        lemma_word_put(w1, a + 24, (i + 1) as u64, b);
        lemma_word_put(ws, item_off(a, i), v, b);
    }
    lemma_word_put(w2, a + 16, bumped(seq_of(w2, a)), a + 24);
    lemma_word_put(w2, a + 16, bumped(seq_of(w2, a)), a + 16);
    lemma_word_put(w2, a + 16, bumped(seq_of(w2, a)), item_off(a, i));
    lemma_word_put(w1, a + 24, (i + 1) as u64, item_off(a, i));
    lemma_word_put(w1, a + 24, (i + 1) as u64, a + 24);
    lemma_word_put(w1, a + 24, (i + 1) as u64, a + 16);
    lemma_word_put(ws, item_off(a, i), v, a + 24);
    lemma_word_put(ws, item_off(a, i), v, a + 16);
    assert(in_words(ws, item_off(a, i)));
    assert forall|j: int| 0 <= j < cap_of(ws, a) && j != i implies #[trigger] item_at(xs, a, j)
        == item_at(ws, a, j) by {
        assert(word(xs, item_off(a, j)) == word(ws, item_off(a, j)));
    }
    assert(changed_at(ws, xs, a));
    lemma_item_changed(ws, xs, a, i, v);
}

/// The effect of emptying a slot of an array.
pub proof fn lemma_item_removed(ws: Seq<u64>, a: int, i: int)
    requires
        wf(ws),
        is_list(ws, a),
        0 <= i < cap_of(ws, a),
    ensures
        rest_kept(ws, item_removed(ws, a, i), a, i),
        item_at(item_removed(ws, a, i), a, i) == H_INVALID,
        count_of(item_removed(ws, a, i), a) == count_of(ws, a),
{
    let xs = item_removed(ws, a, i);
    lemma_node(ws, a);
    let w1 = put(ws, item_off(a, i), H_INVALID);
    assert forall|b: int| b != item_off(a, i) && b != a + 16 implies #[trigger] word(xs, b) == word(
        ws,
        b,
    ) by {
        lemma_word_put(w1, a + 16, bumped(seq_of(w1, a)), b);
        lemma_word_put(ws, item_off(a, i), H_INVALID, b);
    }
    lemma_word_put(w1, a + 16, bumped(seq_of(w1, a)), a + 16);
    lemma_word_put(w1, a + 16, bumped(seq_of(w1, a)), item_off(a, i));
    lemma_word_put(ws, item_off(a, i), H_INVALID, a + 16);
    assert(in_words(ws, item_off(a, i)));
    assert forall|j: int| 0 <= j < cap_of(ws, a) && j != i implies #[trigger] item_at(xs, a, j)
        == item_at(ws, a, j) by {
        assert(word(xs, item_off(a, j)) == word(ws, item_off(a, j)));
    }
    assert(changed_at(ws, xs, a));
    lemma_item_changed(ws, xs, a, i, H_INVALID);
}

/// The effect of appending to an array.
pub proof fn lemma_pushed(ws: Seq<u64>, a: int, v: u64)
    requires
        wf(ws),
        is_list(ws, a),
        item_fits(ws, v),
    ensures
        ({
            let len = count_of(ws, a);
            let (r, xs) = pushed(ws, a, v);
            &&& rest_kept(ws, xs, a, len as int)
            &&& r is Ok <==> len < cap_of(ws, a)
            &&& r matches Ok(n) ==> n == len + 1 && count_of(xs, a) == n && item_at(
                xs,
                a,
                len as int,
            ) == v
            &&& r matches Err(e) ==> e == GraphError::ArrayFull && same_list(ws, xs, a)
        }),
{
    let len = count_of(ws, a);
    if len < cap_of(ws, a) {
        lemma_item_put(ws, a, len as int, v);
    } else {
        let xs = touched(ws, a);
        lemma_touched(ws, a);
        lemma_changed_frame(ws, xs, a);
        lemma_node(ws, a);
        lemma_changed_nodes(ws, xs, a);
        assert forall|h: u64| #[trigger] live(ws, h) implies live(xs, h) by {
            let n = off_of(h) as int;
            assert(is_node(xs, n));
            lemma_node(ws, n);
            assert(word(xs, n) == word(ws, n));
        }
        assert(is_list(xs, a));
        assert forall|j: int| 0 <= j < cap_of(ws, a) implies #[trigger] item_at(xs, a, j)
            == item_at(ws, a, j) by {
            assert(word(xs, item_off(a, j)) == word(ws, item_off(a, j)));
        }
    }
}

} // verus!
