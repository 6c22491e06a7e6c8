//! Mutations as single steps.
//!
//! Whatever the other threads do, a mutation changes its node as if it happened at one
//! moment: the moment at which it claims the node.
use crate::arena::SIZE_HEADER;
use crate::discipline::{
    building, builds, lemma_open_block, lemma_own_block, moves_version, open_block, own_block,
    writes,
};
use crate::graph::{claims_lookup, empties, found_in, links, lookup};
use crate::history::{
    after, changes, comes_after, effect, effects, guarded, law_lookup_holds_at_claim,
    law_window_is_atomic, lemma_after_len, lemma_effect, lemma_effects_len, lemma_place, of_thread,
    place, Step,
};
use crate::layout::{cap_of, count_of, item_off, key_at, lemma_payload_len, seq_of};
use crate::memory::{lemma_word_put, lemma_word_put_all, put, put_all, word, Event};
use crate::node::{node_header, rewritten, NODE_HDR};
use crate::record::{
    empty_accesses, ends_in_window, ends_with, entry_stores, entry_written, extend_accesses,
    free_seen, item_word, item_written, node_made, node_rewritten, push_accesses, push_made,
    rewrite_accesses, slot_at, slot_known, store, stores, text_kept, window_from,
};
use crate::tables::{
    handle_put, item_put, item_removed, key_deleted, lemma_slot_from, one_down, one_up, pushed,
    slot_of, with_entry,
};
use crate::trace::{bumped, claimed, loads, seen, seq_off};
use crate::value::{GraphError, Value, H_INVALID, OFFSET_LIMIT};
use crate::words::{halves, lower};
use vstd::prelude::*;
use vstd::utf8::encode_utf8;

verus! {

/// The node at `n`, which ends before `hi`, is the same in both memories, but for its version.
pub open spec fn same_node(xs: Seq<u64>, ys: Seq<u64>, n: u64, hi: int) -> bool {
    forall|off: int| n < off < hi && off != n + 16 ==> #[trigger] word(xs, off) == word(ys, off)
}

/// The memory when thread `p` makes its last access: the release, if it ends with a window.
pub open spec fn before_last(ws: Seq<u64>, h: Seq<Step>, p: int) -> Seq<u64> {
    after(ws, h.take(place(h, p, of_thread(h, p).len() - 1)))
}

/// The accesses leave the version at `off` alone.
pub open spec fn keep_version(inner: Seq<Event>, off: u64) -> bool {
    forall|i: int| 0 <= i < inner.len() ==> !moves_version(#[trigger] inner[i], off)
}

/// A thread that works in a window finds, and leaves, what its own accesses make of the node as
/// it was when it was claimed.
proof fn lemma_window_replay(
    ws: Seq<u64>,
    h: Seq<Step>,
    n: u64,
    hi: int,
    p: int,
    k: int,
    inner: Seq<Event>,
    since: int,
)
    requires
        guarded(ws, h, n, hi, since),
        comes_after(h, p, since, k),
        SIZE_HEADER <= n,
        window_from(of_thread(h, p), k, n, inner),
        keep_version(inner, seq_off(n)),
    ensures
        forall|x: int, off: int|
            k < x < of_thread(h, p).len() - 1 && n < off < hi && #[trigger] loads(
                of_thread(h, p),
                x,
                off,
            ) ==> seen(of_thread(h, p), x) == word(
                effects(after(ws, h.take(place(h, p, k))), of_thread(h, p).subrange(k, x)),
                off,
            ),
        same_node(
            before_last(ws, h, p),
            effects(
                after(ws, h.take(place(h, p, k))),
                of_thread(h, p).subrange(k, of_thread(h, p).len() - 1),
            ),
            n,
            hi,
        ),
{
    let t = of_thread(h, p);
    let last = t.len() - 1;
    assert forall|x: int| k < x < last implies !moves_version(#[trigger] t[x], seq_off(n)) by {
        assert(t.subrange(k + 1, last)[x - k - 1] == t[x]);
        assert(!moves_version(inner[x - k - 1], seq_off(n)));
    }
    assert forall|x: int, off: int|
        k < x < last && n < off < hi && #[trigger] loads(t, x, off) implies seen(t, x) == word(
        effects(after(ws, h.take(place(h, p, k))), t.subrange(k, x)),
        off,
    ) by {
        lemma_place(ws, h, p, x);
        law_window_is_atomic(ws, h, n, hi, p, k, x, off, since);
    }
    assert forall|off: int| n < off < hi && off != n + 16 implies #[trigger] word(
        before_last(ws, h, p),
        off,
    ) == word(effects(after(ws, h.take(place(h, p, k))), t.subrange(k, last)), off) by {
        law_window_is_atomic(ws, h, n, hi, p, k, last, off, since);
    }
}

/// Appending to an array is one step: there is a moment such that the call gave what appending
/// gives at that moment, and left the array as appending leaves it.
pub proof fn law_push_is_one_step(
    ws: Seq<u64>,
    h: Seq<Step>,
    a: u64,
    hi: int,
    p: int,
    t0: Seq<Event>,
    value: u64,
    r: Result<u32, GraphError>,
    since: int,
)
    requires
        guarded(ws, h, a, hi, since),
        comes_after(h, p, since, t0.len() as int),
        SIZE_HEADER <= a,
        a + NODE_HDR <= hi,
        push_made(t0, of_thread(h, p), a, value, r),
    ensures
        exists|j: int|
            0 <= j <= h.len() && ({
                let (s, xs) = pushed(#[trigger] after(ws, h.take(j)), a as int, value);
                r == s && same_node(before_last(ws, h, p), xs, a, hi)
            }),
{
    let t = of_thread(h, p);
    let (len, sizes) = choose|len: u64, sizes: u64|
        ends_in_window(t0, t, a, #[trigger] push_accesses(a, value, len, sizes)) && r
            == if len < lower(sizes) {
            Ok((len + 1) as u32)
        } else {
            Err(GraphError::ArrayFull)
        };
    let inner = push_accesses(a, value, len, sizes);
    let k = t.len() - inner.len() - 2;
    let j = place(h, p, k);
    let now = after(ws, h.take(j));
    let last = t.len() - 1;
    lemma_place(ws, h, p, k);
    assert(keep_version(inner, seq_off(a)));
    lemma_window_replay(ws, h, a, hi, p, k, inner, since);
    lemma_inner(t, k, a, inner, 0);
    lemma_inner(t, k, a, inner, 1);
    lemma_effects_next(now, t, k, k);
    lemma_effects_next(now, t, k, k + 1);
    lemma_effects_next(now, t, k, k + 2);
    assert(loads(t, k + 1, a + 24));
    assert(loads(t, k + 2, a + 8));
    let w0 = put(now, a + 16, t[k]->Cas_new);
    lemma_word_put(now, a + 16, t[k]->Cas_new, a + 24);
    lemma_word_put(now, a + 16, t[k]->Cas_new, a + 8);
    assert(len == count_of(now, a as int));
    assert(lower(sizes) == cap_of(now, a as int));
    let xs = pushed(now, a as int, value).1;
    let left = effects(now, t.subrange(k, last));
    if len < lower(sizes) {
        lemma_inner(t, k, a, inner, 2);
        lemma_inner(t, k, a, inner, 3);
        lemma_effects_next(now, t, k, k + 3);
        lemma_effects_next(now, t, k, k + 4);
        let at = item_off(a as int, len as int);
        let w1 = put(w0, at, value);
        assert(left == put(w1, a + 24, (len + 1) as u64));
        let y1 = put(now, at, value);
        let y2 = put(y1, a + 24, (len + 1) as u64);
        assert forall|off: int| a < off < hi && off != a + 16 implies #[trigger] word(left, off)
            == word(xs, off) by {
            lemma_word_put(w1, a + 24, (len + 1) as u64, off);
            lemma_word_put(w0, at, value, off);
            lemma_word_put(now, a + 16, t[k]->Cas_new, off);
            lemma_word_put(y2, a + 16, bumped(seq_of(y2, a as int)), off);
            lemma_word_put(y1, a + 24, (len + 1) as u64, off);
            lemma_word_put(now, at, value, off);
        }
    } else {
        assert forall|off: int| a < off < hi && off != a + 16 implies #[trigger] word(left, off)
            == word(xs, off) by {
            lemma_word_put(now, a + 16, t[k]->Cas_new, off);
            lemma_word_put(now, a + 16, bumped(seq_of(now, a as int)), off);
        }
    }
    assert(same_node(before_last(ws, h, p), xs, a, hi)) by {
        assert forall|off: int| a < off < hi && off != a + 16 implies #[trigger] word(
            before_last(ws, h, p),
            off,
        ) == word(xs, off) by {
            assert(word(left, off) == word(xs, off));
        }
    }
}

/// Setting a slot of an array is one step: there is a moment such that the call left the array as
/// setting the slot leaves it at that moment.
pub proof fn law_put_index_is_one_step(
    ws: Seq<u64>,
    h: Seq<Step>,
    a: u64,
    hi: int,
    p: int,
    t0: Seq<Event>,
    i: int,
    value: u64,
    since: int,
)
    requires
        guarded(ws, h, a, hi, since),
        comes_after(h, p, since, t0.len() as int),
        SIZE_HEADER <= a,
        a + NODE_HDR <= hi,
        0 <= i <= 0xffff_ffff,
        item_written(t0, of_thread(h, p), a, i, value),
    ensures
        exists|j: int|
            0 <= j <= h.len() && same_node(
                before_last(ws, h, p),
                item_put(#[trigger] after(ws, h.take(j)), a as int, i, value),
                a,
                hi,
            ),
{
    let t = of_thread(h, p);
    let count = choose|count: u64|
        ends_in_window(t0, t, a, #[trigger] extend_accesses(a, i, value, count));
    let inner = extend_accesses(a, i, value, count);
    let k = t.len() - inner.len() - 2;
    let j = place(h, p, k);
    let now = after(ws, h.take(j));
    let last = t.len() - 1;
    let at = item_off(a as int, i);
    lemma_place(ws, h, p, k);
    assert(keep_version(inner, seq_off(a)));
    lemma_window_replay(ws, h, a, hi, p, k, inner, since);
    lemma_inner(t, k, a, inner, 0);
    lemma_inner(t, k, a, inner, 1);
    lemma_effects_next(now, t, k, k);
    lemma_effects_next(now, t, k, k + 1);
    lemma_effects_next(now, t, k, k + 2);
    let w0 = put(now, a + 16, t[k]->Cas_new);
    let w1 = put(w0, at, value);
    assert(loads(t, k + 2, a + 24));
    lemma_word_put(now, a + 16, t[k]->Cas_new, a + 24);
    lemma_word_put(w0, at, value, a + 24);
    assert(count == count_of(now, a as int));
    let more = i + 1 > count;
    if more {
        lemma_inner(t, k, a, inner, 2);
        lemma_effects_next(now, t, k, k + 3);
    }
    let left = effects(now, t.subrange(k, last));
    let len = (i + 1) as u64;
    assert(left == if more {
        put(w1, a + 24, len)
    } else {
        w1
    });
    let xs = item_put(now, a as int, i, value);
    let y1 = put(now, at, value);
    let y2 = if more {
        put(y1, a + 24, len)
    } else {
        y1
    };
    assert forall|off: int| a < off < hi && off != a + 16 implies #[trigger] word(
        before_last(ws, h, p),
        off,
    ) == word(xs, off) by {
        assert(word(before_last(ws, h, p), off) == word(left, off));
        lemma_word_put(w1, a + 24, len, off);
        lemma_word_put(w0, at, value, off);
        lemma_word_put(now, a + 16, t[k]->Cas_new, off);
        lemma_word_put(y2, a + 16, bumped(seq_of(y2, a as int)), off);
        lemma_word_put(y1, a + 24, len, off);
        lemma_word_put(now, at, value, off);
    }
    assert(same_node(before_last(ws, h, p), xs, a, hi));
}

/// Emptying a slot of an array is one step: there is a moment such that the call left the array as
/// emptying the slot leaves it at that moment.
pub proof fn law_delete_index_is_one_step(
    ws: Seq<u64>,
    h: Seq<Step>,
    a: u64,
    hi: int,
    p: int,
    t0: Seq<Event>,
    i: int,
    since: int,
)
    requires
        guarded(ws, h, a, hi, since),
        comes_after(h, p, since, t0.len() as int),
        SIZE_HEADER <= a,
        0 <= i <= 0xffff_ffff,
        ends_in_window(t0, of_thread(h, p), a, seq![store(item_word(a, i), H_INVALID)]),
    ensures
        exists|j: int|
            0 <= j <= h.len() && same_node(
                before_last(ws, h, p),
                item_removed(#[trigger] after(ws, h.take(j)), a as int, i),
                a,
                hi,
            ),
{
    let t = of_thread(h, p);
    let inner = seq![store(item_word(a, i), H_INVALID)];
    let k = t.len() - 3;
    let now = after(ws, h.take(place(h, p, k)));
    let at = item_off(a as int, i);
    lemma_place(ws, h, p, k);
    assert(keep_version(inner, seq_off(a)));
    lemma_window_replay(ws, h, a, hi, p, k, inner, since);
    lemma_inner(t, k, a, inner, 0);
    lemma_effects_next(now, t, k, k);
    lemma_effects_next(now, t, k, k + 1);
    let w0 = put(now, a + 16, t[k]->Cas_new);
    let left = put(w0, at, H_INVALID);
    let xs = item_removed(now, a as int, i);
    let y = put(now, at, H_INVALID);
    assert forall|off: int| a < off < hi && off != a + 16 implies #[trigger] word(
        before_last(ws, h, p),
        off,
    ) == word(xs, off) by {
        assert(word(before_last(ws, h, p), off) == word(left, off));
        lemma_word_put(w0, at, H_INVALID, off);
        lemma_word_put(now, a + 16, t[k]->Cas_new, off);
        lemma_word_put(y, a + 16, bumped(seq_of(y, a as int)), off);
        lemma_word_put(now, at, H_INVALID, off);
    }
    assert(same_node(before_last(ws, h, p), xs, a, hi));
}

/// The effect of writing words one after the other.
proof fn lemma_effects_stores(ws: Seq<u64>, t: Seq<Event>, k: int, x: int, at: int, vals: Seq<u64>)
    requires
        0 <= k <= x,
        x + vals.len() <= t.len(),
        0 <= at,
        at + 8 * vals.len() <= u64::MAX,
        forall|i: int| 0 <= i < vals.len() ==> #[trigger] t[x + i] == store(at + 8 * i, vals[i]),
    ensures
        effects(ws, t.subrange(k, x + vals.len())) == put_all(
            effects(ws, t.subrange(k, x)),
            at,
            vals,
        ),
    decreases vals.len(),
{
    if vals.len() > 0 {
        let front = vals.drop_last();
        let y = x + front.len();
        assert forall|i: int| 0 <= i < front.len() implies #[trigger] t[x + i] == store(
            at + 8 * i,
            front[i],
        ) by {
            assert(t[x + i] == store(at + 8 * i, vals[i]));
        }
        lemma_effects_stores(ws, t, k, x, at, front);
        lemma_effects_next(ws, t, k, y);
        assert(t[x + front.len()] == store(at + 8 * front.len(), vals.last()));
    }
}

/// Overwriting a scalar in place is one step: there is a moment such that the call left the node as
/// overwriting leaves it at that moment.
pub proof fn law_overwrite_is_one_step(
    ws: Seq<u64>,
    h: Seq<Step>,
    n: u64,
    hi: int,
    p: int,
    t0: Seq<Event>,
    v: Value,
    since: int,
)
    requires
        guarded(ws, h, n, hi, since),
        comes_after(h, p, since, t0.len() as int),
        SIZE_HEADER <= n,
        n + NODE_HDR <= hi,
        !v.is_container(),
        v.store() <= 0xffff_ffff,
        node_rewritten(t0, of_thread(h, p), n, v),
    ensures
        exists|j: int|
            0 <= j <= h.len() && same_node(
                before_last(ws, h, p),
                rewritten(#[trigger] after(ws, h.take(j)), n as int, v),
                n,
                hi,
            ),
{
    let t = of_thread(h, p);
    let sizes = choose|sizes: u64|
        ends_in_window(t0, t, n, #[trigger] rewrite_accesses(n, v, sizes));
    let inner = rewrite_accesses(n, v, sizes);
    let vals = v.payload();
    let at = n + NODE_HDR;
    let k = t.len() - inner.len() - 2;
    let now = after(ws, h.take(place(h, p, k)));
    let last = t.len() - 1;
    let len = vals.len() as int;
    lemma_payload_len(v);
    lemma_place(ws, h, p, k);
    assert(keep_version(inner, seq_off(n))) by {
        assert forall|i: int| 0 <= i < inner.len() implies !moves_version(
            #[trigger] inner[i],
            seq_off(n),
        ) by {
            if i < len {
                assert(inner[i] == stores(at, vals)[i]);
            }
        }
    }
    lemma_window_replay(ws, h, n, hi, p, k, inner, since);
    lemma_effects_next(now, t, k, k);
    let w0 = put(now, n + 16, t[k]->Cas_new);
    assert(effects(now, t.subrange(k, k + 1)) == w0);
    assert forall|i: int| 0 <= i < len implies #[trigger] t[k + 1 + i] == store(
        at + 8 * i,
        vals[i],
    ) by {
        lemma_inner(t, k, n, inner, i);
        assert(inner[i] == stores(at, vals)[i]);
    }
    lemma_effects_stores(now, t, k, k + 1, at, vals);
    let w1 = put_all(w0, at, vals);
    let left = effects(now, t.subrange(k, last));
    let hdr = node_header(now, n as int);
    let size = halves(hdr.cap, v.store() as u32);
    if v is Str {
        let x = k + 1 + len;
        lemma_inner(t, k, n, inner, len);
        lemma_inner(t, k, n, inner, len + 1);
        lemma_effects_next(now, t, k, x);
        lemma_effects_next(now, t, k, x + 1);
        assert(loads(t, x, n + 8));
        lemma_word_put_all(w0, at, vals, n + 8);
        lemma_word_put(now, n + 16, t[k]->Cas_new, n + 8);
        assert(sizes == word(now, n + 8));
        assert(left == put(w1, n + 8, size));
    } else {
        assert(left == w1);
    }
    let xs = rewritten(now, n as int, v);
    let y1 = put_all(now, at, vals);
    let y2 = if v is Str {
        put(y1, n + 8, size)
    } else {
        y1
    };
    assert forall|off: int| n < off < hi && off != n + 16 implies #[trigger] word(
        before_last(ws, h, p),
        off,
    ) == word(xs, off) by {
        assert(word(before_last(ws, h, p), off) == word(left, off));
        lemma_word_put_all(w0, at, vals, 0);
        lemma_word_put_all(now, at, vals, 0);
        lemma_word_put(w1, n + 8, size, off);
        lemma_word_put_all(w0, at, vals, off);
        lemma_word_put(now, n + 16, t[k]->Cas_new, off);
        lemma_word_put(y2, n + 16, bumped(hdr.seqlock), off);
        lemma_word_put(y1, n + 8, size, off);
        lemma_word_put_all(now, at, vals, off);
    }
    assert(same_node(before_last(ws, h, p), xs, n, hi));
}

/// One access more.
proof fn lemma_effects_next(ws: Seq<u64>, t: Seq<Event>, k: int, x: int)
    requires
        0 <= k <= x < t.len(),
    ensures
        effects(ws, t.subrange(k, k)) == ws,
        effects(ws, t.subrange(k, x + 1)) == effect(effects(ws, t.subrange(k, x)), t[x]),
{
    assert(t.subrange(k, x + 1).drop_last() =~= t.subrange(k, x));
    assert(t.subrange(k, k).len() == 0);
}

/// What the accesses of a window are.
proof fn lemma_inner(t: Seq<Event>, k: int, n: u64, inner: Seq<Event>, i: int)
    requires
        window_from(t, k, n, inner),
        0 <= i < inner.len(),
    ensures
        t[k + 1 + i] == inner[i],
{
    assert(t.subrange(k + 1, t.len() - 1)[i] == t[k + 1 + i]);
}

/// Linking a handle to a key that is there is one step: the call found what is there at the
/// moment of its claim, with access `k`, and left the node as linking leaves it at that moment.
/// (What it read elsewhere, the texts of keys, is supposed not to have changed.)
pub proof fn law_link_is_one_step(
    ws: Seq<u64>,
    h: Seq<Step>,
    c: u64,
    hi: int,
    p: int,
    t0: Seq<Event>,
    key: Seq<char>,
    child: u64,
    slot: u32,
    vh: u64,
    i: int,
    k: int,
    since: int,
)
    requires
        guarded(ws, h, c, hi, since),
        comes_after(h, p, since, t0.len() as int),
        h.len() <= u64::MAX,
        SIZE_HEADER <= c,
        links(t0, of_thread(h, p), c, key, child, Some((slot, vh)), i, k),
        texts_stay(ws, h, c, hi, p, t0, i, k),
    ensures
        ({
            let (s, xs) = handle_put(after(ws, h.take(place(h, p, k))), c as int, key, child);
            s == Ok::<(), GraphError>(()) && same_node(before_last(ws, h, p), xs, c, hi)
        }),
{
    let t = of_thread(h, p);
    let now = after(ws, h.take(place(h, p, k)));
    let at = slot_at(c, slot) + 8;
    let inner = seq![store(at, child)];
    lemma_found_at_claim(ws, h, c, hi, p, t0, key, Some((slot, vh)), i, k, since);
    lemma_place(ws, h, p, k);
    assert(keep_version(inner, seq_off(c)));
    lemma_window_replay(ws, h, c, hi, p, k, inner, since);
    lemma_inner(t, k, c, inner, 0);
    lemma_effects_next(now, t, k, k);
    lemma_effects_next(now, t, k, k + 1);
    let xs = handle_put(now, c as int, key, child).1;
    let w0 = put(now, c + 16, t[k]->Cas_new);
    let left = put(w0, at, child);
    let y = put(now, at, child);
    assert forall|off: int| c < off < hi && off != c + 16 implies #[trigger] word(
        before_last(ws, h, p),
        off,
    ) == word(xs, off) by {
        assert(word(before_last(ws, h, p), off) == word(left, off));
        lemma_word_put(w0, at, child, off);
        lemma_word_put(now, c + 16, t[k]->Cas_new, off);
        lemma_word_put(y, c + 16, bumped(seq_of(y, c as int)), off);
        lemma_word_put(now, at, child, off);
    }
}

/// Deleting a key is one step: the call found what is there at the moment of its claim, with
/// access `k`, says so, and left the node as deleting leaves it at that moment. (What it read
/// elsewhere, the texts of keys, is supposed not to have changed.)
pub proof fn law_delete_is_one_step(
    ws: Seq<u64>,
    h: Seq<Step>,
    c: u64,
    hi: int,
    p: int,
    t0: Seq<Event>,
    key: Seq<char>,
    used: bool,
    slot: u32,
    vh: u64,
    i: int,
    k: int,
    since: int,
)
    requires
        guarded(ws, h, c, hi, since),
        comes_after(h, p, since, t0.len() as int),
        h.len() <= u64::MAX,
        SIZE_HEADER <= c,
        slot_at(c, slot) + 16 <= hi,
        empties(t0, of_thread(h, p), c, key, used, slot, vh, i, k),
        texts_stay(ws, h, c, hi, p, t0, i, k),
    ensures
        ({
            let (was, xs) = key_deleted(after(ws, h.take(place(h, p, k))), c as int, key);
            was && used && same_node(before_last(ws, h, p), xs, c, hi)
        }),
{
    let t = of_thread(h, p);
    let now = after(ws, h.take(place(h, p, k)));
    let at = slot_at(c, slot);
    let (was, count) = choose|was: u64, count: u64|
        window_from(t, k, c, #[trigger] empty_accesses(c, slot, was, count)) && used == (was
            != H_INVALID);
    let inner = empty_accesses(c, slot, was, count);
    lemma_found_at_claim(ws, h, c, hi, p, t0, key, Some((slot, vh)), i, k, since);
    lemma_slot_from(now, c as int, encode_utf8(key), 0, cap_of(now, c as int));
    lemma_place(ws, h, p, k);
    assert(keep_version(inner, seq_off(c)));
    lemma_window_replay(ws, h, c, hi, p, k, inner, since);
    lemma_inner(t, k, c, inner, 0);
    lemma_inner(t, k, c, inner, 1);
    lemma_inner(t, k, c, inner, 2);
    lemma_effects_next(now, t, k, k);
    lemma_effects_next(now, t, k, k + 1);
    lemma_effects_next(now, t, k, k + 2);
    lemma_effects_next(now, t, k, k + 3);
    let w0 = put(now, c + 16, t[k]->Cas_new);
    assert(loads(t, k + 1, at));
    lemma_word_put(now, c + 16, t[k]->Cas_new, at);
    assert(was == key_at(now, c as int, slot as int));
    lemma_inner(t, k, c, inner, 3);
    lemma_inner(t, k, c, inner, 4);
    lemma_effects_next(now, t, k, k + 4);
    lemma_effects_next(now, t, k, k + 5);
    let w1 = put(w0, at, H_INVALID);
    let w2 = put(w1, at + 8, H_INVALID);
    assert(loads(t, k + 4, c + 24));
    lemma_word_put(w1, at + 8, H_INVALID, c + 24);
    lemma_word_put(w0, at, H_INVALID, c + 24);
    lemma_word_put(now, c + 16, t[k]->Cas_new, c + 24);
    assert(count == count_of(now, c as int));
    let fewer = one_down(count);
    let left = put(w2, c + 24, fewer);
    let xs = key_deleted(now, c as int, key).1;
    let y1 = put(now, at, H_INVALID);
    let y2 = put(y1, at + 8, H_INVALID);
    let y3 = put(y2, c + 24, fewer);
    assert forall|off: int| c < off < hi && off != c + 16 implies #[trigger] word(
        before_last(ws, h, p),
        off,
    ) == word(xs, off) by {
        assert(word(before_last(ws, h, p), off) == word(left, off));
        lemma_word_put(w2, c + 24, fewer, off);
        lemma_word_put(w1, at + 8, H_INVALID, off);
        lemma_word_put(w0, at, H_INVALID, off);
        lemma_word_put(now, c + 16, t[k]->Cas_new, off);
        lemma_word_put(y3, c + 16, bumped(seq_of(y3, c as int)), off);
        lemma_word_put(y2, c + 24, fewer, off);
        lemma_word_put(y1, at + 8, H_INVALID, off);
        lemma_word_put(now, at, H_INVALID, off);
    }
}

/// Accesses that do not change a word leave it as it is.
proof fn lemma_effects_keep(ws: Seq<u64>, t: Seq<Event>, k: int, x: int, off: int)
    requires
        0 <= k <= x <= t.len(),
        forall|y: int| k <= y < x ==> !#[trigger] changes(t[y], off),
    ensures
        word(effects(ws, t.subrange(k, x)), off) == word(ws, off),
    decreases x - k,
{
    if x == k {
        assert(t.subrange(k, k).len() == 0);
    } else {
        lemma_effects_keep(ws, t, k, x - 1, off);
        lemma_effects_next(ws, t, k, x - 1);
        assert(!changes(t[x - 1], off));
        lemma_effect(effects(ws, t.subrange(k, x - 1)), t[x - 1], off);
    }
}

/// Adding a key is one step: the key was absent at the moment of the claim, with access `k`, and
/// a slot that was free at that moment was put to use for it; nothing else of the node has
/// changed. (What the call read elsewhere, the texts of keys, is supposed not to have changed, and
/// the nodes that it made to lie elsewhere.)
#[verifier::rlimit(60)]
#[verifier::spinoff_prover]
pub proof fn law_insert_is_one_step(
    ws: Seq<u64>,
    h: Seq<Step>,
    c: u64,
    hi: int,
    p: int,
    t0: Seq<Event>,
    key: Seq<char>,
    child: u64,
    i: int,
    k: int,
    since: int,
)
    requires
        guarded(ws, h, c, hi, since),
        comes_after(h, p, since, t0.len() as int),
        h.len() <= u64::MAX,
        SIZE_HEADER <= c,
        links(t0, of_thread(h, p), c, key, child, None, i, k),
        texts_stay(ws, h, c, hi, p, t0, i, k),
        makes_elsewhere(of_thread(h, p), k, c, hi),
    ensures
        ({
            let now = after(ws, h.take(place(h, p, k)));
            &&& slot_of(now, c as int, key) is None
            &&& exists|slot: u32, kh: u64| #[trigger]
                inserts(ws, h, c, hi, p, k, key, child, slot, kh)
        }),
        held_to_the_end(of_thread(h, p), k, c),
{
    let t = of_thread(h, p);
    let now = after(ws, h.take(place(h, p, k)));
    let n = t.len() as int;
    let seq = claimed(t, k);
    let t1 = t.take(k + 1);
    lemma_found_at_claim(ws, h, c, hi, p, t0, key, None, i, k, since);
    lemma_place(ws, h, p, k);
    assert forall|x: int, off: int|
        k < x < n - 5 && (c < off < hi || off == c + 16) implies !#[trigger] changes(t[x], off) by {
        lemma_makes_elsewhere(t, k, c, hi, n - 5, x, off);
    }
    let (slot, kh) = choose|slot: u32, kh: u64| #[trigger]
        entry_written(t1, t, c, slot, kh, child, seq) && slot_known(t1, t, c, slot) && free_seen(
            t1,
            t,
            c,
            slot,
        ) && node_made(t1, t, kh, Value::Str(key)) && text_kept(t1, t.take(t.len() - 5), kh, key);
    let count = choose|count: u64|
        ends_with(t1, t, #[trigger] entry_stores(c, slot, kh, child, count, seq));
    let filled = entry_stores(c, slot, kh, child, count, seq);
    let at = slot_at(c, slot);
    assert forall|x: int| 0 <= x < 5 implies #[trigger] filled[x] == t[n - 5 + x] by {
        assert(t.skip(n - 5)[x] == t[n - 5 + x]);
    }
    assert(t[n - 5] == filled[0] && t[n - 4] == filled[1] && t[n - 3] == filled[2]);
    assert(t[n - 2] == filled[3] && t[n - 1] == filled[4]);
    assert forall|x: int| k < x < n - 1 implies !moves_version(#[trigger] t[x], seq_off(c)) by {
        if x < n - 5 {
            assert(!changes(t[x], c + 16));
        }
    }
    let mid = effects(now, t.subrange(k, n - 5));
    lemma_effects_next(now, t, k, n - 5);
    lemma_effects_next(now, t, k, n - 4);
    lemma_effects_next(now, t, k, n - 3);
    lemma_effects_next(now, t, k, n - 2);
    let w1 = put(mid, at, kh);
    let w2 = put(w1, at + 8, child);
    let more = one_up(count);
    let left = put(w2, c + 24, more);
    assert(effects(now, t.subrange(k, n - 1)) == left);
    assert forall|off: int| c < off < hi && off != c + 16 implies word(mid, off) == word(
        now,
        off,
    ) by {
        assert forall|y: int| k <= y < n - 5 implies !#[trigger] changes(t[y], off) by {}
        lemma_effects_keep(now, t, k, n - 5, off);
    }
    if c + 8 < hi {
        let j = choose|j: int|
            t1.len() <= j < t.len() && #[trigger] loads(t, j, c + 8) && slot < lower(seen(t, j));
        assert(j < n - 5);
        lemma_place(ws, h, p, j);
        law_window_is_atomic(ws, h, c, hi, p, k, j, c + 8, since);
        assert forall|y: int| k <= y < j implies !#[trigger] changes(t[y], c + 8) by {}
        lemma_effects_keep(now, t, k, j, c + 8);
    }
    if c + 24 < hi {
        lemma_place(ws, h, p, n - 3);
        law_window_is_atomic(ws, h, c, hi, p, k, n - 3, c + 24, since);
        lemma_word_put(w1, at + 8, child, c + 24);
        lemma_word_put(mid, at, kh, c + 24);
        assert(count == count_of(now, c as int));
    }
    if at + 16 <= hi {
        let j = choose|j: int|
            t1.len() <= j < t.len() && #[trigger] loads(t, j, at) && seen(t, j) == H_INVALID;
        assert(j < n - 5);
        lemma_place(ws, h, p, j);
        law_window_is_atomic(ws, h, c, hi, p, k, j, at, since);
        assert forall|y: int| k <= y < j implies !#[trigger] changes(t[y], at) by {}
        lemma_effects_keep(now, t, k, j, at);
    }
    let xs = with_entry(now, c as int, slot as int, kh, child);
    let y1 = put(now, at, kh);
    let y2 = put(y1, at + 8, child);
    let y3 = put(y2, c + 24, one_up(count_of(now, c as int)));
    assert forall|off: int| c < off < hi && off != c + 16 implies #[trigger] word(
        before_last(ws, h, p),
        off,
    ) == word(xs, off) by {
        law_window_is_atomic(ws, h, c, hi, p, k, n - 1, off, since);
        lemma_after_len(ws, h.take(place(h, p, k)));
        lemma_effects_len(now, t.subrange(k, n - 5));
        lemma_word_put(w2, c + 24, more, off);
        lemma_word_put(w1, at + 8, child, off);
        lemma_word_put(mid, at, kh, off);
        lemma_word_put(y3, c + 16, bumped(seq_of(y3, c as int)), off);
        lemma_word_put(y2, c + 24, one_up(count_of(now, c as int)), off);
        lemma_word_put(y1, at + 8, child, off);
        lemma_word_put(now, at, kh, off);
    }
    assert(same_node(before_last(ws, h, p), xs, c, hi));
    assert(inserts(ws, h, c, hi, p, k, key, child, slot, kh));
}

/// The moment of access `k`, at which thread `p` claimed the object or map at `c`, and the moment
/// of its last access differ in that slot `slot`, which was free, has been put to use for the
/// handle `child` under the text `key`, for which the thread made the node behind `kh` in between.
pub open spec fn inserts(
    ws: Seq<u64>,
    h: Seq<Step>,
    c: u64,
    hi: int,
    p: int,
    k: int,
    key: Seq<char>,
    child: u64,
    slot: u32,
    kh: u64,
) -> bool {
    let now = after(ws, h.take(place(h, p, k)));
    &&& c + 8 < hi ==> slot < cap_of(now, c as int)
    &&& slot_at(c, slot) + 16 <= hi ==> key_at(now, c as int, slot as int) == H_INVALID
    &&& node_made(of_thread(h, p).take(k + 1), of_thread(h, p), kh, Value::Str(key))
    &&& makes_key(of_thread(h, p), k, slot_at(c, slot), key, kh)
    &&& same_node(
        before_last(ws, h, p),
        with_entry(now, c as int, slot as int, kh, child),
        c,
        hi,
    )
}

/// After its access `k` the thread made the node behind `kh` for the text `key`, and wrote the
/// handle to the word at `off`, with the fifth of its last accesses; in between it did nothing but
/// look around and make other nodes.
pub open spec fn makes_key(t: Seq<Event>, k: int, off: int, key: Seq<char>, kh: u64) -> bool {
    &&& k + 5 < t.len()
    &&& 0 <= off <= u64::MAX
    &&& text_kept(t.take(k + 1), t.take(t.len() - 5), kh, key)
    &&& t[t.len() - 5] == store(off, kh)
}

/// The thread did not move the version of the node at `c` after its access `k`, before its last
/// access, which releases the node.
pub open spec fn held_to_the_end(t: Seq<Event>, k: int, c: u64) -> bool {
    &&& k < t.len() - 1
    &&& forall|x: int| k < x < t.len() - 1 ==> !moves_version(#[trigger] t[x], seq_off(c))
    &&& writes(t.last(), seq_off(c))
}

/// The blocks that the thread was given after its access `k` lie outside of the node at `c`.
pub open spec fn makes_elsewhere(t: Seq<Event>, k: int, c: u64, hi: int) -> bool {
    forall|off: u64|
        c < off < hi || off == seq_off(c) ==> !#[trigger] own_block(t.take(k + 1), t, off)
}

/// A thread that makes nodes elsewhere does not change the node at `c`.
proof fn lemma_makes_elsewhere(t: Seq<Event>, k: int, c: u64, hi: int, n: int, x: int, off: int)
    requires
        SIZE_HEADER <= c < OFFSET_LIMIT,
        makes_elsewhere(t, k, c, hi),
        0 <= k < n <= t.len(),
        builds(t.take(k + 1), t.take(n)),
        k < x < n,
        c < off < hi || off == c + 16,
    ensures
        !changes(t[x], off),
{
    let u = t.take(n);
    assert(building(t.take(k + 1), u.take(x), u[x]));
    if let Event::Store { off: o, .. } = t[x] {
        if open_block(t.take(k + 1), u.take(x), o) {
            lemma_open_block(t.take(k + 1), u.take(x), o);
            assert(t.take(u.take(x).len() as int) =~= u.take(x));
            lemma_own_block(t.take(k + 1), t.take(k + 1), u.take(x), t, o);
        }
    }
}

/// What thread `p` read outside of the node at `c`, with its accesses since `t0` and before `i`, is
/// what is there at its access `k`.
pub open spec fn texts_stay(
    ws: Seq<u64>,
    h: Seq<Step>,
    c: u64,
    hi: int,
    p: int,
    t0: Seq<Event>,
    i: int,
    k: int,
) -> bool {
    forall|x: int, off: int|
        t0.len() <= x < i && !(c < off < hi) && #[trigger] loads(of_thread(h, p), x, off) ==> seen(
            of_thread(h, p),
            x,
        ) == word(after(ws, h.take(place(h, p, k))), off)
}

/// What was looked up is what is there when the node is claimed.
pub(crate) proof fn lemma_found_at_claim(
    ws: Seq<u64>,
    h: Seq<Step>,
    c: u64,
    hi: int,
    p: int,
    t0: Seq<Event>,
    key: Seq<char>,
    entry: Option<(u32, u64)>,
    i: int,
    k: int,
    since: int,
)
    requires
        guarded(ws, h, c, hi, since),
        comes_after(h, p, since, t0.len() as int),
        h.len() <= u64::MAX,
        claims_lookup(t0, of_thread(h, p), c, key, entry, i, k),
        texts_stay(ws, h, c, hi, p, t0, i, k),
    ensures
        found_in(after(ws, h.take(place(h, p, k))), c, key, entry),
{
    let t = of_thread(h, p);
    let seq = claimed(t, k);
    let b = choose|b: int| t0.len() <= b && #[trigger] lookup(t.take(i), b, c, key, seq, entry);
    law_lookup_holds_at_claim(ws, h, c, hi, p, key, entry, b, i, k, since);
}

} // verus!
