//! Changing the object graph.
//!
//! A mutation looks up what it is about and then claims the very version that it
//! looked at, so that it acts on what it found. If the version has moved on, it
//! starts over.
use crate::arena::{aligned, odd, OFF_ROOT};
use crate::attempts::{
    at_most_rewrites, backs_out, claims_last, claims_once, lemma_claims_last, lemma_claims_once,
    lemma_none, lemma_once, lemma_quiet_builds, lemma_quiet_idle, lemma_quiet_join,
    lemma_quiet_rewrite, lemma_rewrites, lemma_rewrites_later, lemma_unclaiming, quiet,
    rewrites_once, unclaiming,
};
use crate::discipline::{
    astray, builds, disciplined, finishes, follows_text, free_found, gets_root, has_room, keeps_cap,
    known, lemma_astray, lemma_builds_disciplined, lemma_builds_join, lemma_claimed_and_finished,
    lemma_disciplined_child, lemma_disciplined_join, lemma_disciplined_push,
    lemma_disciplined_start, lemma_finish, lemma_finish_later, lemma_finish_push, lemma_free_found,
    lemma_idle_builds, lemma_idle_disciplined, lemma_known, lemma_made, lemma_made_at,
    lemma_new_spare, lemma_own_block, lemma_scalar_found, lemma_slot_known, lemma_spare,
    lemma_window_disciplined, made, ready_at, scalar_found, scalar_word, slot_word, spare, targets,
    text_at, text_ready, value_read, value_ready, value_written, writes_key, writes_value, Op,
};
use crate::effects::{
    entry_finished, handle_inserted, lemma_deleted, lemma_handle_inserted_held, lemma_handle_put,
    lemma_replaced, lemma_scalar_inserted_held, lemma_scalar_put, scalar_inserted,
};
use crate::frames::lemma_appended_frame;
use crate::graph::{
    create_object, empties, find_key, finds_full, full_found, handle_linked, key_absent,
    key_emptied, key_linked, key_removed, key_set, lemma_claims_lookup, lemma_looked_up, links,
    looked_up, overwrites, read_kv_value, rewrites_and_looks, slot_seen,
};
use crate::layout::{
    cap_of, is_table, kept, key_at, lemma_node, lemma_with_scalar, live, live_table, not_a_key,
    seq_of, slot_ok, val_at, wf,
};
use crate::memory::{in_words, Event, Memory};
use crate::node::{
    cap_seen, claim_at, commit, container_size, handle_to_rval, lemma_no_space, lemma_value_refused,
    load_cap, new_scalar_node, no_space, payload_end, rewritten, roomy, scalar_reusable,
    scalar_write_inplace, unlocked, value_locked, value_refused, value_seen, with_scalar,
    DEFAULT_CAP, NODE_HDR,
};
use crate::record::{
    emptied, empty_accesses, ends_in_window, ends_with, entry_made, entry_stores, entry_written,
    free_seen, lemma_ends_in_window, lemma_ends_with, lemma_entry_written, lemma_free_seen,
    lemma_node_made_later, lemma_table_full, lemma_used_seen, lemma_window_inner, linked, load,
    made_at, node_made, node_rewritten, rewrite_accesses, sees_full, slot_at, slot_known,
    slot_written, store, table_full, text_kept, used_seen, window_from,
};
use crate::root::lemma_rooted;
use crate::tables::{
    free_from, handle_put, key_deleted, lemma_container_not_a_key, lemma_slot_from, replaceable,
    revalued, rooted, scalar_put, slot_of, value_put, without_entry,
};
use crate::trace::{
    at_most_one_window, bumped, changes_nothing, claimed, end_seen, extends, idle,
    lemma_extends_join, lemma_extends_push, lemma_extends_start, lemma_idle_join, lemma_idle_push,
    lemma_reads_only_idle, lemma_stays_inside, lemma_uses_allocator, loads, marks, open_window,
    reads_only, released, released_but, seen, seq_off, stays_inside, uses_allocator, window,
};
use crate::value::{
    container_kind, hoff, is_container, is_scalar, kind_of, off_of, rval_to_scalar, GraphError,
    RVal, Scalar, Value, H_INVALID, KIND_OBJECT, OFFSET_LIMIT,
};
use crate::words::{lemma_halves, lower, upper};
use vstd::prelude::*;
use vstd::utf8::encode_utf8;

verus! {

broadcast use crate::trace::group_trace;

// Slots of objects and maps.

/// Writes `value` into slot `slot` of the object or map at `c`, under its version,
/// if that is still `seq`.
fn write_kv_slot<M: Memory>(mem: &mut M, c: u64, slot: u32, value: u64, seq: u64) -> (done: bool)
    requires
        c < OFFSET_LIMIT,
        seq % 2 == 0,
    ensures
        final(mem).patience() == old(mem).patience(),
        released(old(mem).trace(), final(mem).trace()),
        at_most_one_window(
            old(mem).trace(),
            final(mem).trace(),
            c,
            slot_at(c, slot) + 16,
        ),
        !done ==> idle(old(mem).trace(), final(mem).trace()),
        extends(old(mem).trace(), final(mem).trace()),
        done ==> slot_written(
            old(mem).trace(),
            final(mem).trace(),
            c,
            slot,
            value,
            seq,
        ) && final(mem).trace().len() == old(mem).trace().len() + 3,
        final(mem).undisturbed() ==> {
            let ws = old(mem).words();
            &&& old(mem).undisturbed()
            &&& done == (in_words(ws, c + 16) && seq_of(ws, c as int) == seq)
            &&& final(mem).words() == if done {
                revalued(ws, c as int, slot as int, value)
            } else {
                ws
            }
        },
{
    broadcast use crate::trace::group_extends;

    if !claim_at(mem, c, seq) {
        return false;
    }
    let ghost k = mem.trace().len() - 1;
    let ghost hi = slot_at(c, slot) + 16;
    let ghost t = mem.trace();
    assert(open_window(old(mem).trace(), t, c, hi, k));
    mem.store(c + NODE_HDR + 16 * slot as u64 + 8, value);
    let ghost t = mem.trace();
    assert(open_window(old(mem).trace(), t, c, hi, k));
    assert(released_but(old(mem).trace(), t, seq_off(c)));
    commit(mem, c, seq);
    proof {
        let written = seq![store(slot_at(c, slot) + 8, value)];
        lemma_ends_in_window(old(mem).trace(), old(mem).trace(), c, mem.trace()[k], written);
        assert(mem.trace() =~= (old(mem).trace().push(mem.trace()[k]) + written).push(
            store(c + 16, bumped(seq)),
        ));
        assert(ends_in_window(old(mem).trace(), mem.trace(), c, written));
    }
    assert(mem.undisturbed() ==> mem.words() =~= revalued(
        old(mem).words(),
        c as int,
        slot as int,
        value,
    ));
    true
}

/// A scalar that the thread has made may become a value once the object or map has been claimed.
proof fn lemma_spare_claimed(
    t0: Seq<Event>,
    t1: Seq<Event>,
    c: u64,
    hi: int,
    value: u64,
    i: int,
)
    requires
        c < OFFSET_LIMIT,
        spare(t0, c, value),
        at_most_one_window(t0, t1, c, hi),
        t0.len() <= i < t1.len() - 1,
        t1[i] is Store,
    ensures
        value_ready(t1.take(i), c, value),
{
    let t = t1.take(i);
    assert(!changes_nothing(t1[i]));
    let k = choose|k: int| window(t0, t1, c, hi, k);
    let u = t1.drop_last();
    if i < k {
        assert(changes_nothing(u.take(k)[i]));
    }
    assert(u[i] == t1[i]);
    assert(i != k);
    assert(t.take(k) =~= u.take(k));
    assert(t.take(t0.len() as int) =~= u.take(k).take(t0.len() as int));
    lemma_idle_builds(t0, u.take(k));
    assert(marks(t[k], seq_off(c)));
    lemma_spare(t0, u.take(k), t, c, value);
}

/// Writing a handle that may be linked to a slot that the object or map has is in order.
proof fn lemma_slot_disciplined(
    c: u64,
    child: Option<u64>,
    t0: Seq<Event>,
    t1: Seq<Event>,
    slot: u32,
    value: u64,
    seq: u64,
    done: bool,
)
    requires
        c < OFFSET_LIMIT,
        known(t0, c, slot),
        child == Some(value) || spare(t0, c, value),
        extends(t0, t1),
        at_most_one_window(t0, t1, c, slot_at(c, slot) + 16),
        !done ==> idle(t0, t1),
        done ==> slot_written(t0, t1, c, slot, value, seq),
    ensures
        disciplined(Op::Keys { c, child }, t0, t1),
{
    let op = Op::Keys { c, child };
    let hi = slot_at(c, slot) + 16;
    if idle(t0, t1) {
        lemma_idle_disciplined(op, t0, t1);
    } else {
        let inner = seq![store(slot_at(c, slot) + 8, value)];
        assert forall|i: int, off: u64, val: u64|
            t0.len() <= i < t1.len() - 1 && t1[i] == (Event::Store {
                off,
                val,
            }) implies #[trigger] targets(op, t1.take(i), c, off, val) by {
            let t = t1.take(i);
            lemma_window_inner(t0, t1, c, hi, inner, i);
            assert(t.take(t0.len() as int) =~= t1.take(t0.len() as int));
            lemma_known(t0, t, c, slot);
            if child != Some(value) {
                lemma_spare_claimed(t0, t1, c, hi, value, i);
            }
            assert(slot_word(t, c, child, slot, off, val));
        }
        lemma_window_disciplined(op, t0, t1, c, hi);
    }
}

/// Writing to a slot claims the object or map, and nothing after that.
proof fn lemma_slot_claims(
    t0: Seq<Event>,
    t1: Seq<Event>,
    c: u64,
    slot: u32,
    value: u64,
    seq: u64,
)
    requires
        slot_written(t0, t1, c, slot, value, seq),
        extends(t0, t1),
        t1.len() == t0.len() + 3,
    ensures
        claims_last(t0, t1, c),
{
    reveal(unclaiming);
    let k = t0.len() as int;
    assert(t1.subrange(k + 1, t1.len() - 1)[0] == t1[k + 1]);
    assert(t1.take(k) == t0);
    lemma_reads_only_idle(t0, t0);
    lemma_idle_builds(t0, t0);
}

/// Overwriting a scalar that the thread has found, or has made, with a value that it has room for
/// is in order.
proof fn lemma_rewrite_disciplined(
    c: u64,
    t0: Seq<Event>,
    t1: Seq<Event>,
    h: u64,
    v: Value,
    done: bool,
)
    requires
        scalar_found(t0, c, h),
        kind_of(h) == v.kind(),
        !v.is_container(),
        roomy(t0, off_of(h), v),
        v.store() <= 0xffff_ffff,
        extends(t0, t1),
        at_most_one_window(t0, t1, off_of(h), payload_end(off_of(h), v)),
        !done ==> idle(t0, t1),
        done ==> node_rewritten(t0, t1, off_of(h), v),
    ensures
        disciplined(Op::Keys { c, child: None }, t0, t1),
{
    let op = Op::Keys { c, child: None };
    let n = off_of(h);
    let hi = payload_end(n, v);
    if idle(t0, t1) {
        lemma_idle_disciplined(op, t0, t1);
    } else {
        let sizes = choose|sizes: u64|
            ends_in_window(t0, t1, n, #[trigger] rewrite_accesses(n, v, sizes));
        let inner = rewrite_accesses(n, v, sizes);
        let len = v.payload().len();
        let room = choose|j: int|
            0 <= j < t0.len() && #[trigger] loads(t0, j, n + 8) && 8 * len <= aligned(
                lower(seen(t0, j)) as int,
            ) && (v is Str ==> v.store() <= lower(seen(t0, j)));
        assert forall|i: int, off: u64, val: u64|
            t0.len() <= i < t1.len() - 1 && t1[i] == (Event::Store {
                off,
                val,
            }) implies #[trigger] targets(op, t1.take(i), n, off, val) by {
            let t = t1.take(i);
            let x = i - (t1.len() - inner.len() - 1);
            lemma_window_inner(t0, t1, n, hi, inner, i);
            assert(t.take(t0.len() as int) =~= t1.take(t0.len() as int));
            lemma_scalar_found(t0, t, c, h);
            if x < len {
                assert(inner[x] == store(n + NODE_HDR + 8 * x, v.payload()[x]));
                if v is Str || len > 1 {
                    assert(t1.take(t0.len() as int)[room] == t0[room]);
                    assert(has_room(t, n, 1, off, room));
                } else {
                    assert(x == 0);
                }
            } else {
                assert(v is Str);
                assert(x == len + 1);
                let k = t1.len() - inner.len() - 2;
                assert(t1.subrange(k + 1, t1.len() - 1)[x - 1] == t1[i - 1]);
                assert(inner[x - 1] == load(n + 8, sizes));
                lemma_halves(lower(sizes), v.store() as u32);
                assert(t1.take(t0.len() as int)[room] == t0[room]);
                assert(loads(t, room, n + 8) && upper(val) <= lower(seen(t, room)));
                assert(t[k] == t1[k] && marks(t[k], seq_off(n)));
                assert(keeps_cap(t, n, val, i - 1));
            }
            assert(scalar_word(t, h, off, val));
        }
        lemma_window_disciplined(op, t0, t1, n, hi);
    }
}

/// Finds a slot of the object or map at `c` that is not in use.
fn find_free<M: Memory>(mem: &mut M, c: u64, cap: u32) -> (found: Option<u32>)
    requires
        c < OFFSET_LIMIT,
    ensures
        final(mem).words() == old(mem).words(),
        final(mem).patience() == old(mem).patience(),
        reads_only(old(mem).trace(), final(mem).trace()),
        found matches Some(slot) ==> slot < cap && free_seen(
            old(mem).trace(),
            final(mem).trace(),
            c,
            slot,
        ),
        found is None ==> forall|slot: u32|
            slot < cap ==> #[trigger] used_seen(old(mem).trace(), final(mem).trace(), c, slot),
        final(mem).undisturbed() ==> old(mem).undisturbed() && match free_from(
            old(mem).words(),
            c as int,
            0,
            cap as int,
        ) {
            Some(i) => found matches Some(slot) && slot == i,
            None => found is None,
        },
{
    let mut i: u32 = 0;
    while i < cap
        invariant
            c < OFFSET_LIMIT,
            i <= cap,
            mem.words() == old(mem).words(),
            mem.patience() == old(mem).patience(),
            reads_only(old(mem).trace(), mem.trace()),
            forall|slot: u32|
                slot < i ==> #[trigger] used_seen(old(mem).trace(), mem.trace(), c, slot),
            mem.undisturbed() ==> old(mem).undisturbed() && free_from(
                old(mem).words(),
                c as int,
                0,
                cap as int,
            ) == free_from(old(mem).words(), c as int, i as int, cap as int),
        decreases cap - i,
    {
        let ghost t1 = mem.trace();
        let k: u64 = mem.load(c + NODE_HDR + 16 * i as u64);
        proof {
            let t = mem.trace();
            assert(loads(t, t.len() - 1, slot_at(c, i)));
        }
        if k == H_INVALID {
            return Some(i);
        }
        proof {
            let t0 = old(mem).trace();
            let t2 = mem.trace();
            assert(t2.take(t1.len() as int) =~= t1);
            assert forall|slot: u32| slot < i + 1 implies #[trigger] used_seen(
                t0,
                t2,
                c,
                slot,
            ) by {
                if slot < i {
                    lemma_used_seen(t0, t0, t1, t2, c, slot);
                }
            }
        }
        i = i + 1;
    }
    None
}

/// A table all slots of which have been seen to be in use has been seen to be full.
proof fn lemma_seen_full(
    t0: Seq<Event>,
    t1: Seq<Event>,
    t2: Seq<Event>,
    t3: Seq<Event>,
    c: u64,
    cap: u32,
)
    requires
        t1.len() == t0.len() + 1,
        cap_seen(t1, t0.len() as int, c, cap),
        extends(t1, t2),
        extends(t2, t3),
        forall|slot: u32| slot < cap ==> #[trigger] used_seen(t1, t2, c, slot),
    ensures
        table_full(t0, t3, c),
{
    let j = t0.len() as int;
    lemma_extends_join(t1, t2, t3);
    assert(t3.take(t1.len() as int)[j] == t1[j]);
    assert forall|slot: u32| slot < lower(seen(t3, j)) implies #[trigger] used_seen(
        t0,
        t3,
        c,
        slot,
    ) by {
        assert(used_seen(t1, t2, c, slot));
        lemma_used_seen(t0, t1, t2, t3, c, slot);
    }
    assert(sees_full(t0, t3, c, j));
}

/// A slot below the capacity that was read is one that the object or map has.
proof fn lemma_cap_known(
    t0: Seq<Event>,
    t1: Seq<Event>,
    t2: Seq<Event>,
    t3: Seq<Event>,
    c: u64,
    cap: u32,
    slot: u32,
)
    requires
        t1.len() == t0.len() + 1,
        cap_seen(t1, t0.len() as int, c, cap),
        slot < cap,
        extends(t1, t2),
        extends(t2, t3),
    ensures
        slot_known(t0, t3, c, slot),
{
    lemma_extends_join(t1, t2, t3);
    assert(slot_known(t0, t1, c, slot)) by {
        assert(loads(t1, t0.len() as int, c + 8));
    }
    lemma_slot_known(t0, t0, t1, t3, c, slot);
}

/// Creates the node of a key.
fn alloc_str<M: Memory>(mem: &mut M, s: &str) -> (h: Option<u64>)
    ensures
        final(mem).patience() <= old(mem).patience(),
        released(old(mem).trace(), final(mem).trace()),
        builds(old(mem).trace(), final(mem).trace()),
        h matches Some(k) ==> node_made(
            old(mem).trace(),
            final(mem).trace(),
            k,
            Value::Str(s@),
        ) && (free_found(final(mem).trace()) || made_at(
            final(mem).trace(),
            k,
            Value::Str(s@),
            final(mem).trace().len() as int,
        )),
        h is Some ==> uses_allocator(old(mem).trace(), final(mem).trace()),
        h is None ==> final(mem).patience() == 0 || value_refused(
            old(mem).trace(),
            final(mem).trace(),
            Value::Str(s@),
        ),
        final(mem).undisturbed() ==> old(mem).undisturbed() && (h, final(mem).words())
            == with_scalar(old(mem).words(), Value::Str(s@)),
{
    let key: Scalar = Scalar::Str(s.to_owned());
    new_scalar_node(mem, &key)
}

/// What was overwritten by then was overwritten since earlier.
proof fn lemma_rewrites_and_looks(
    t0: Seq<Event>,
    t1: Seq<Event>,
    t2: Seq<Event>,
    c: u64,
    slot: u32,
    h: u64,
    v: Value,
)
    requires
        t0.len() <= t1.len(),
        rewrites_and_looks(t1, t2, c, slot, h, v),
    ensures
        rewrites_and_looks(t0, t2, c, slot, h, v),
{
    let n = off_of(h);
    let j = choose|j: int|
        0 <= j <= t2.len() && #[trigger] node_rewritten(t1, t2.take(j), n, v) && reads_only(
            t2.take(j),
            t2,
        ) && slot_seen(t2, c, slot, h);
    let sizes = choose|sizes: u64|
        ends_in_window(t1, t2.take(j), n, #[trigger] rewrite_accesses(n, v, sizes));
    assert(ends_in_window(t0, t2.take(j), n, rewrite_accesses(n, v, sizes)));
    assert(node_rewritten(t0, t2.take(j), n, v));
}

/// The thread has made the text behind `key`, then the scalar behind `value`, and nothing but nodes
/// since.
spec fn follows(t: Seq<Event>, key: u64, value: u64) -> bool {
    made(t, value) && (free_found(t) || exists|s: Seq<char>, k: int, v: Value, d: int| #[trigger]
        text_at(t, key, s, k) && k < d && #[trigger] made_at(t, value, v, d) && builds(t.take(d), t))
}

/// Such a scalar may become a value once the text has become a key.
proof fn lemma_follows(t0: Seq<Event>, t1: Seq<Event>, c: u64, key: u64, value: u64)
    requires
        follows(t0, key, value),
        t0.len() + 1 == t1.len(),
        t1.drop_last() == t0,
        writes_key(t0, t1.last(), c, key),
    ensures
        value_ready(t1, c, value),
{
    assert(t1.take(t0.len() as int) =~= t0);
    lemma_made(t0, t1, value);
    if free_found(t0) {
        lemma_free_found(t0, t1);
    } else {
        let (s, k, v, d) = choose|s: Seq<char>, k: int, v: Value, d: int| #[trigger]
            text_at(t0, key, s, k) && k < d && #[trigger] made_at(t0, value, v, d) && builds(
                t0.take(d),
                t0,
            );
        lemma_made_at(t0, t1, value, v, d);
        assert(follows_text(t1, c, d));
        assert(ready_at(t1, c, value, v, d));
    }
}

/// Puts slot `slot` of the object or map at `c` to use, and releases the version
/// that was claimed at `seq`.
fn fill_slot<M: Memory>(
    mem: &mut M,
    c: u64,
    seq: u64,
    slot: u32,
    key: u64,
    value: u64,
    Ghost(child): Ghost<Option<u64>>,
)
    requires
        c < OFFSET_LIMIT,
        known(old(mem).trace(), c, slot),
        text_ready(old(mem).trace(), key),
        child == Some(value) || follows(old(mem).trace(), key, value),
    ensures
        final(mem).patience() == old(mem).patience(),
        forall|t0| #[trigger]
            released_but(t0, old(mem).trace(), seq_off(c)) ==> released(t0, final(mem).trace()),
        extends(old(mem).trace(), final(mem).trace()),
        finishes(Op::Keys { c, child }, old(mem).trace(), final(mem).trace(), c, seq),
        entry_written(old(mem).trace(), final(mem).trace(), c, slot, key, value, seq),
        final(mem).trace().len() == old(mem).trace().len() + 5,
        unclaiming(final(mem).trace(), old(mem).trace().len() as int),
        final(mem).undisturbed() ==> old(mem).undisturbed() && final(mem).words()
            == entry_finished(old(mem).words(), c as int, seq, slot as int, key, value),
{
    broadcast use crate::trace::group_extends;

    mem.store(c + NODE_HDR + 16 * slot as u64, key);
    let ghost t1 = mem.trace();
    mem.store(c + NODE_HDR + 16 * slot as u64 + 8, value);
    let ghost t2 = mem.trace();
    let count: u64 = mem.load(c + 24);
    let ghost t3 = mem.trace();
    mem.store(c + 24, count.wrapping_add(1));
    let ghost t4 = mem.trace();
    proof {
        assert forall|t0| #[trigger] released_but(t0, old(mem).trace(), seq_off(c)) implies
            released_but(t0, mem.trace(), seq_off(c)) by {}
    }
    commit(mem, c, seq);
    proof {
        let t5 = mem.trace();
        let filled = entry_stores(c, slot, key, value, count, seq);
        lemma_ends_with(old(mem).trace(), old(mem).trace(), filled);
        assert(t5 =~= old(mem).trace() + filled);
        reveal(unclaiming);
        let t0 = old(mem).trace();
        let op = Op::Keys { c, child };
        lemma_extends_start(t0);
        lemma_extends_push(t0, t0, t1.last());
        lemma_known(t0, t1, c, slot);
        if child != Some(value) {
            assert(known(t0, c, slot) && t1.last() == store(slot_at(c, slot), key));
            lemma_follows(t0, t1, c, key, value);
        }
        assert(slot_word(t0, c, child, slot, slot_at(c, slot) as u64, key));
        assert(slot_word(t1, c, child, slot, (slot_at(c, slot) + 8) as u64, value));
        lemma_finish(op, t4, c, seq);
        lemma_finish_push(op, t3, t4.last(), t5, c, seq);
        lemma_finish_push(op, t2, t3.last(), t5, c, seq);
        lemma_finish_push(op, t1, t2.last(), t5, c, seq);
        lemma_finish_push(op, t0, t1.last(), t5, c, seq);
    }
}

/// From `t0` to `t1` the thread, which held the object or map at `c`, claimed at `seq`, did nothing
/// but look around and make nodes, and released it.
pub open spec fn given_back(t0: Seq<Event>, t1: Seq<Event>, c: u64, seq: u64) -> bool {
    &&& t0.len() < t1.len()
    &&& builds(t0, t1.drop_last())
    &&& t1.last() == store(c + 16, bumped(seq))
}

/// Giving the object or map back claims nothing.
proof fn lemma_given_back(t0: Seq<Event>, t1: Seq<Event>, t2: Seq<Event>, c: u64, seq: u64)
    requires
        builds(t0, t1),
        t2 == t1.push(Event::Store { off: seq_off(c), val: bumped(seq) }),
    ensures
        given_back(t0, t2, c, seq),
        unclaiming(t2, t0.len() as int),
{
    reveal(unclaiming);
    assert(t2.drop_last() =~= t1);
    lemma_quiet_builds(t0, t1, c, Seq::empty(), None);
    assert forall|x: int, off: u64| t0.len() <= x < t2.len() && #[trigger] marks(
        t2[x],
        off,
    ) implies off < crate::format::SIZE_HEADER by {
        if x < t1.len() {
            assert(marks(t1[x], off));
        }
    }
}

/// Inserts a new key with a scalar into the object or map at `c`, the version of
/// which has been claimed at `seq`, and releases the version.
#[verifier::rlimit(50)]
pub(crate) fn insert_scalar<M: Memory>(
    mem: &mut M,
    c: u64,
    seq: u64,
    key: &str,
    s: &Scalar,
) -> (r: Result<u64, GraphError>)
    requires
        c < OFFSET_LIMIT,
    ensures
        final(mem).patience() <= old(mem).patience(),
        forall|t0| #[trigger]
            released_but(t0, old(mem).trace(), seq_off(c)) ==> released(t0, final(mem).trace()),
        extends(old(mem).trace(), final(mem).trace()),
        finishes(Op::Keys { c, child: None }, old(mem).trace(), final(mem).trace(), c, seq),
        r matches Ok(h) ==> entry_made(old(mem).trace(), final(mem).trace(), c, key@, h, seq)
            && node_made(old(mem).trace(), final(mem).trace(), h, s@) && value_written(
            final(mem).trace(),
            c,
            h,
        ),
        unclaiming(final(mem).trace(), old(mem).trace().len() as int),
        r is Err ==> given_back(old(mem).trace(), final(mem).trace(), c, seq),
        r is Ok ==> uses_allocator(old(mem).trace(), final(mem).trace()),
        r matches Err(e) ==> {
            ||| e == GraphError::ContainerFull && table_full(old(mem).trace(), final(mem).trace(), c)
            ||| e == GraphError::RegionFull && (final(mem).patience() == 0 || value_refused(
                old(mem).trace(),
                final(mem).trace(),
                Value::Str(key@),
            ) || value_refused(old(mem).trace(), final(mem).trace(), s@))
        },
        final(mem).undisturbed() ==> old(mem).undisturbed() && (r, final(mem).words())
            == scalar_inserted(old(mem).words(), c as int, seq, key@, s@),
{
    broadcast use crate::trace::group_extends;

    let ghost op = Op::Keys { c, child: None };
    let cap: u32 = load_cap(mem, c);
    let ghost tc = mem.trace();
    let free: Option<u32> = find_free(mem, c, cap);
    let ghost t1 = mem.trace();
    proof {
        lemma_reads_only_idle(old(mem).trace(), t1);
        lemma_idle_builds(old(mem).trace(), t1);
        lemma_finish(op, t1, c, seq);
    }
    let slot: u32 = match free {
        Some(slot) => slot,
        None => {
            commit(mem, c, seq);
            proof {
                lemma_finish_later(op, old(mem).trace(), t1, mem.trace(), c, seq);
                lemma_given_back(old(mem).trace(), t1, mem.trace(), c, seq);
                lemma_seen_full(old(mem).trace(), tc, t1, mem.trace(), c, cap);
            }
            return Err(GraphError::ContainerFull);
        },
    };
    let keyh: Option<u64> = alloc_str(mem, key);
    let ghost t2 = mem.trace();
    proof {
        lemma_builds_join(old(mem).trace(), t1, t2);
        lemma_finish(op, t2, c, seq);
    }
    let keyh: u64 = match keyh {
        Some(h) => h,
        None => {
            commit(mem, c, seq);
            proof {
                lemma_finish_later(op, old(mem).trace(), t2, mem.trace(), c, seq);
                lemma_given_back(old(mem).trace(), t2, mem.trace(), c, seq);
                lemma_value_refused(old(mem).trace(), t1, t2, mem.trace(), Value::Str(key@));
            }
            return Err(GraphError::RegionFull);
        },
    };
    let valh: Option<u64> = new_scalar_node(mem, s);
    let ghost t3 = mem.trace();
    proof {
        lemma_builds_join(old(mem).trace(), t2, t3);
        lemma_finish(op, t3, c, seq);
    }
    let valh: u64 = match valh {
        Some(h) => h,
        None => {
            commit(mem, c, seq);
            proof {
                lemma_finish_later(op, old(mem).trace(), t3, mem.trace(), c, seq);
                lemma_given_back(old(mem).trace(), t3, mem.trace(), c, seq);
                lemma_value_refused(old(mem).trace(), t2, t3, mem.trace(), s@);
            }
            return Err(GraphError::RegionFull);
        },
    };
    proof {
        assert forall|t0| #[trigger] released_but(t0, old(mem).trace(), seq_off(c)) implies
            released_but(t0, mem.trace(), seq_off(c)) by {}
        lemma_extends_join(t1, t2, t3);
        lemma_cap_known(old(mem).trace(), tc, t1, t3, c, cap, slot);
        lemma_extends_start(t3);
        lemma_slot_known(Seq::empty(), old(mem).trace(), t3, t3, c, slot);
        lemma_own_block(Seq::empty(), t2, t3, t3, off_of(valh));
        lemma_own_block(Seq::empty(), t1, t2, t3, off_of(keyh));
        lemma_text_and_value(t2, t3, keyh, key@, valh, s@);
    }
    fill_slot(mem, c, seq, slot, keyh, valh, Ghost(None));
    proof {
        lemma_finish_later(op, old(mem).trace(), t3, mem.trace(), c, seq);
        lemma_uses_allocator(old(mem).trace(), t1, t2, mem.trace());
        let t0 = old(mem).trace();
        lemma_node_made_later(t0, t2, t3, mem.trace(), valh, s@);
        lemma_entry_value(t3, mem.trace(), c, slot, keyh, valh, seq);
        lemma_node_made_later(t0, t1, t2, mem.trace(), keyh, Value::Str(key@));
        lemma_entry_written(t0, t3, mem.trace(), c, slot, keyh, valh, seq);
        lemma_extends_join(t1, t2, t3);
        lemma_extends_join(t1, t3, mem.trace());
        lemma_free_seen(t0, tc, t1, mem.trace(), c, slot);
        lemma_slot_known(t0, t0, t3, mem.trace(), c, slot);
        assert(mem.trace().take(mem.trace().len() - 5) == t3);
        assert(t3.take(t2.len() as int) == t2);
        lemma_extends_start(t2);
        lemma_node_made_later(t0, t1, t2, t2, keyh, Value::Str(key@));
        if free_found(t2) {
            lemma_free_found(t2, t3);
        } else {
            lemma_made_at(t2, t3, keyh, Value::Str(key@), t2.len() as int);
        }
        assert(text_kept(t0, t3, keyh, key@));
        lemma_quiet_builds(t0, t3, c, key@, None);
        lemma_unclaiming(t3, mem.trace(), t0.len() as int);
    }
    Ok(valh)
}

/// A text and then a scalar have been made.
proof fn lemma_text_and_value(
    t2: Seq<Event>,
    t3: Seq<Event>,
    key: u64,
    s: Seq<char>,
    value: u64,
    v: Value,
)
    requires
        builds(t2, t3),
        made(t3, key),
        made(t3, value),
        free_found(t2) || made_at(t2, key, Value::Str(s), t2.len() as int),
        free_found(t3) || made_at(t3, value, v, t3.len() as int),
        t2.len() < t3.len(),
    ensures
        text_ready(t3, key),
        follows(t3, key, value),
{
    if free_found(t2) {
        lemma_free_found(t2, t3);
    } else {
        let k = t2.len() as int;
        lemma_made_at(t2, t3, key, Value::Str(s), k);
        assert(t3.take(k) =~= t2);
        assert(text_at(t3, key, s, k));
        if !free_found(t3) {
            let d = t3.len() as int;
            assert(t3.take(d) =~= t3);
            lemma_reads_only_idle(t3, t3);
            lemma_idle_builds(t3, t3);
            assert(text_at(t3, key, s, k) && k < d && made_at(t3, value, v, d));
        }
    }
}

/// Putting a slot to use writes the value.
proof fn lemma_entry_value(
    t3: Seq<Event>,
    t: Seq<Event>,
    c: u64,
    slot: u32,
    key: u64,
    value: u64,
    seq: u64,
)
    requires
        c < OFFSET_LIMIT,
        entry_written(t3, t, c, slot, key, value, seq),
        extends(t3, t),
        t.len() == t3.len() + 5,
        known(t3, c, slot),
    ensures
        value_written(t, c, value),
{
    let count = choose|count: u64|
        ends_with(t3, t, #[trigger] entry_stores(c, slot, key, value, count, seq));
    let filled = entry_stores(c, slot, key, value, count, seq);
    let j = t3.len() as int + 1;
    assert(t.skip(t.len() - 5)[1] == t[j]);
    assert(filled[1] == t[j]);
    assert(t.take(j).take(t3.len() as int) =~= t.take(t3.len() as int));
    lemma_known(t3, t.take(j), c, slot);
    assert(writes_value(t, c, value, slot, j));
}

/// Writing to a slot in a window writes the value.
proof fn lemma_slot_value(
    t0: Seq<Event>,
    t: Seq<Event>,
    c: u64,
    slot: u32,
    value: u64,
    seq: u64,
)
    requires
        c < OFFSET_LIMIT,
        slot_written(t0, t, c, slot, value, seq),
        extends(t0, t),
        known(t0, c, slot),
    ensures
        value_written(t, c, value),
{
    let j = t.len() - 2;
    assert(t.subrange(t.len() - 2, t.len() - 1)[0] == t[j]);
    assert(t.take(j).take(t0.len() as int) =~= t.take(t0.len() as int));
    lemma_known(t0, t.take(j), c, slot);
    assert(writes_value(t, c, value, slot, j));
}

/// Inserts a new key with a handle into the object or map at `c`, the version of
/// which has been claimed at `seq`, and releases the version.
#[verifier::rlimit(50)]
fn insert_kv_inner<M: Memory>(mem: &mut M, c: u64, seq: u64, key: &str, child: u64) -> (r: Result<
    (),
    GraphError,
>)
    requires
        c < OFFSET_LIMIT,
    ensures
        final(mem).patience() <= old(mem).patience(),
        forall|t0| #[trigger]
            released_but(t0, old(mem).trace(), seq_off(c)) ==> released(t0, final(mem).trace()),
        extends(old(mem).trace(), final(mem).trace()),
        finishes(Op::Keys { c, child: Some(child) }, old(mem).trace(), final(mem).trace(), c, seq),
        unclaiming(final(mem).trace(), old(mem).trace().len() as int),
        r is Err ==> given_back(old(mem).trace(), final(mem).trace(), c, seq),
        r is Ok ==> entry_made(old(mem).trace(), final(mem).trace(), c, key@, child, seq),
        r matches Err(e) ==> {
            ||| e == GraphError::ContainerFull && table_full(old(mem).trace(), final(mem).trace(), c)
            ||| e == GraphError::RegionFull && (final(mem).patience() == 0 || value_refused(
                old(mem).trace(),
                final(mem).trace(),
                Value::Str(key@),
            ))
        },
        final(mem).undisturbed() ==> old(mem).undisturbed() && (r, final(mem).words())
            == handle_inserted(old(mem).words(), c as int, seq, key@, child),
{
    broadcast use crate::trace::group_extends;

    let ghost op = Op::Keys { c, child: Some(child) };
    let keyh: Option<u64> = alloc_str(mem, key);
    let ghost t1 = mem.trace();
    proof {
        lemma_finish(op, t1, c, seq);
    }
    let keyh: u64 = match keyh {
        Some(h) => h,
        None => {
            commit(mem, c, seq);
            proof {
                let t0 = old(mem).trace();
                lemma_finish_later(op, t0, t1, mem.trace(), c, seq);
                lemma_given_back(t0, t1, mem.trace(), c, seq);
                lemma_value_refused(t0, t0, t1, mem.trace(), Value::Str(key@));
            }
            return Err(GraphError::RegionFull);
        },
    };
    let cap: u32 = load_cap(mem, c);
    let ghost tc = mem.trace();
    let free: Option<u32> = find_free(mem, c, cap);
    let ghost t2 = mem.trace();
    proof {
        lemma_reads_only_idle(t1, t2);
        lemma_idle_builds(t1, t2);
        lemma_builds_join(old(mem).trace(), t1, t2);
        lemma_finish(op, t2, c, seq);
    }
    let slot: u32 = match free {
        Some(slot) => slot,
        None => {
            commit(mem, c, seq);
            proof {
                lemma_finish_later(op, old(mem).trace(), t2, mem.trace(), c, seq);
                lemma_given_back(old(mem).trace(), t2, mem.trace(), c, seq);
                lemma_extends_start(mem.trace());
                lemma_seen_full(t1, tc, t2, mem.trace(), c, cap);
                lemma_table_full(old(mem).trace(), t1, mem.trace(), mem.trace(), c);
            }
            return Err(GraphError::ContainerFull);
        },
    };
    proof {
        assert forall|t0| #[trigger] released_but(t0, old(mem).trace(), seq_off(c)) implies
            released_but(t0, mem.trace(), seq_off(c)) by {}
        lemma_extends_start(t2);
        lemma_cap_known(t1, tc, t2, t2, c, cap, slot);
        lemma_slot_known(Seq::empty(), t1, t2, t2, c, slot);
        lemma_own_block(Seq::empty(), old(mem).trace(), t1, t2, off_of(keyh));
        if free_found(t1) {
            lemma_free_found(t1, t2);
        } else {
            lemma_made_at(t1, t2, keyh, Value::Str(key@), t1.len() as int);
            assert(t2.take(t1.len() as int) == t1);
            lemma_reads_only_idle(t1, t2);
            lemma_idle_builds(t1, t2);
            assert(text_at(t2, keyh, key@, t1.len() as int));
        }
    }
    fill_slot(mem, c, seq, slot, keyh, child, Ghost(Some(child)));
    proof {
        let t0 = old(mem).trace();
        lemma_extends_join(t1, t2, mem.trace());
        lemma_node_made_later(t0, t0, t1, mem.trace(), keyh, Value::Str(key@));
        lemma_entry_written(t0, t2, mem.trace(), c, slot, keyh, child, seq);
        lemma_free_seen(t0, tc, t2, mem.trace(), c, slot);
        lemma_slot_known(t0, t1, t2, mem.trace(), c, slot);
        lemma_finish_later(op, old(mem).trace(), t2, mem.trace(), c, seq);
        assert(mem.trace().take(mem.trace().len() - 5) == t2);
        assert(t2.take(t1.len() as int) == t1);
        if free_found(t1) {
            lemma_free_found(t1, t2);
        } else {
            lemma_made_at(t1, t2, keyh, Value::Str(key@), t1.len() as int);
        }
        assert(text_kept(t0, t2, keyh, key@));
        lemma_quiet_builds(t0, t2, c, key@, None);
        lemma_unclaiming(t2, mem.trace(), t0.len() as int);
    }
    Ok(())
}

// Setting a key.

/// An object or map of a region that is in order can be claimed.
pub(crate) proof fn lemma_table_unlocked(ws: Seq<u64>, c: int)
    requires
        wf(ws),
        is_table(ws, c),
    ensures
        unlocked(ws, c),
{
    lemma_node(ws, c);
}

/// Overwrites the scalar behind `vh` and looks whether slot `slot` of the object or
/// map at `c` still leads to it. `false` if not.
#[verifier::rlimit(50)]
fn overwrite<M: Memory>(
    mem: &mut M,
    c: u64,
    slot: u32,
    vh: u64,
    s: &Scalar,
    Ghost(key): Ghost<Seq<char>>,
) -> (r: Result<bool, GraphError>)
    requires
        c < OFFSET_LIMIT,
        s@.store() <= 0xffff_ffff,
        scalar_found(old(mem).trace(), c, vh),
        kind_of(vh) == s@.kind(),
        roomy(old(mem).trace(), off_of(vh), s@),
    ensures
        final(mem).patience() <= old(mem).patience(),
        released(old(mem).trace(), final(mem).trace()),
        disciplined(Op::Keys { c, child: None }, old(mem).trace(), final(mem).trace()),
        r == Ok::<bool, GraphError>(true) ==> rewrites_and_looks(
            old(mem).trace(),
            final(mem).trace(),
            c,
            slot,
            vh,
            s@,
        ),
        at_most_rewrites(old(mem).trace(), final(mem).trace(), off_of(vh), s@),
        r matches Err(e) ==> e == GraphError::Busy && final(mem).patience() == 0,
        final(mem).undisturbed() ==> old(mem).undisturbed(),
        final(mem).undisturbed() && can_overwrite(
            old(mem).words(),
            c as int,
            slot as int,
            vh,
            s@,
            key,
        ) ==> r == Ok::<bool, GraphError>(true) && final(mem).words() == rewritten(
            old(mem).words(),
            off_of(vh) as int,
            s@,
        ),
{
    proof {
        let ws = old(mem).words();
        if can_overwrite(ws, c as int, slot as int, vh, s@, key) {
            lemma_can_overwrite(ws, c as int, slot as int, vh, s@, key);
        }
    }
    let written: Option<u64> = scalar_write_inplace(mem, hoff(vh), s);
    let ghost t1 = mem.trace();
    proof {
        reveal(at_most_rewrites);
        lemma_rewrite_disciplined(c, old(mem).trace(), t1, vh, s@, written is Some);
    }
    if written.is_none() {
        return Err(GraphError::Busy);
    }
    let now: Option<u64> = read_kv_value(mem, c, slot);
    proof {
        let t0 = old(mem).trace();
        let op = Op::Keys { c, child: None };
        lemma_extends_start(t0);
        lemma_reads_only_idle(t1, mem.trace());
        lemma_reads_only_idle(t0, t0);
        lemma_rewrites(
            t0,
            t0,
            t1,
            mem.trace(),
            off_of(vh),
            payload_end(off_of(vh), s@),
            s@,
        );
        lemma_idle_disciplined(op, t1, mem.trace());
        lemma_disciplined_join(op, t0, t1, mem.trace());
        if now == Some(vh) {
            let t2 = mem.trace();
            assert(t2.take(t1.len() as int) == t1);
            assert(node_rewritten(t0, t2.take(t1.len() as int), off_of(vh), s@));
        }
    }
    match now {
        Some(now) => Ok(now == vh),
        None => Err(GraphError::Busy),
    }
}

/// Slot `slot` leads from `key` to the node behind `vh`, which can take `v`.
spec fn can_overwrite(
    ws: Seq<u64>,
    c: int,
    slot: int,
    vh: u64,
    v: Value,
    key: Seq<char>,
) -> bool {
    &&& wf(ws)
    &&& is_table(ws, c)
    &&& 0 <= slot < cap_of(ws, c)
    &&& slot_of(ws, c, key) == Some(slot)
    &&& val_at(ws, c, slot) == vh
    &&& replaceable(ws, vh, v)
    &&& !v.is_container()
}

/// A scalar that is overwritten is where it was.
#[verifier::rlimit(40)]
#[verifier::spinoff_prover]
proof fn lemma_can_overwrite(ws: Seq<u64>, c: int, slot: int, vh: u64, v: Value, key: Seq<char>)
    requires
        can_overwrite(ws, c, slot, vh, v, key),
    ensures
        unlocked(ws, off_of(vh) as int),
        ({
            let xs = rewritten(ws, off_of(vh) as int, v);
            !odd(seq_of(xs, c)) && val_at(xs, c, slot) == vh
        }),
{
    lemma_node(ws, c);
    assert(slot_ok(ws, c, slot));
    lemma_node(ws, off_of(vh) as int);
    lemma_replaced(ws, c, key, v);
    lemma_node(rewritten(ws, off_of(vh) as int, v), c);
}

/// Making a node, and then writing its handle to a slot, is in order.
proof fn lemma_replace(
    t0: Seq<Event>,
    t1: Seq<Event>,
    t2: Seq<Event>,
    c: u64,
    slot: u32,
    value: u64,
    seq: u64,
    done: bool,
)
    requires
        c < OFFSET_LIMIT,
        builds(t0, t1),
        known(t0, c, slot),
        spare(t1, c, value),
        extends(t1, t2),
        at_most_one_window(t1, t2, c, slot_at(c, slot) + 16),
        !done ==> idle(t1, t2),
        done ==> slot_written(t1, t2, c, slot, value, seq) && t2.len() == t1.len() + 3,
    ensures
        disciplined(Op::Keys { c, child: None }, t0, t2),
        done ==> claims_last(t0, t2, c) && slot_written(t0, t2, c, slot, value, seq),
        done ==> value_written(t2, c, value),
        !done ==> builds(t0, t2) && spare(t2, c, value),
{
    let op = Op::Keys { c, child: None };
    lemma_known(t0, t1, c, slot);
    lemma_builds_disciplined(op, t0, t1);
    lemma_slot_disciplined(c, None, t1, t2, slot, value, seq, done);
    lemma_disciplined_join(op, t0, t1, t2);
    if done {
        lemma_slot_claims(t1, t2, c, slot, value, seq);
        lemma_claims_last(t0, t1, t2, c);
        lemma_slot_value(t1, t2, c, slot, value, seq);
    } else {
        lemma_idle_builds(t1, t2);
        lemma_builds_join(t0, t1, t2);
        lemma_extends_start(t2);
        lemma_spare(t1, t2, t2, c, value);
    }
}

/// Gives slot `slot` of the object or map at `c` a new node that holds `s`, if the
/// version is still `seq`. Gives the node, and whether the slot leads to it now.
#[verifier::rlimit(50)]
pub(crate) fn replace<M: Memory>(
    mem: &mut M,
    c: u64,
    slot: u32,
    s: &Scalar,
    seq: u64,
    fresh: Option<u64>,
) -> (r: Result<(u64, bool), GraphError>)
    requires
        c < OFFSET_LIMIT,
        seq % 2 == 0,
        known(old(mem).trace(), c, slot),
        fresh matches Some(h) ==> spare(old(mem).trace(), c, h),
    ensures
        final(mem).patience() <= old(mem).patience(),
        released(old(mem).trace(), final(mem).trace()),
        r matches Err(e) ==> e == GraphError::RegionFull && (final(mem).patience() == 0
            || value_refused(old(mem).trace(), final(mem).trace(), s@)),
        disciplined(Op::Keys { c, child: None }, old(mem).trace(), final(mem).trace()),
        r matches Ok((h, done)) ==> (done ==> slot_written(
            old(mem).trace(),
            final(mem).trace(),
            c,
            slot,
            h,
            seq,
        )) && (fresh == Some(h) || node_made(old(mem).trace(), final(mem).trace(), h, s@)),
        r matches Ok((h, done)) ==> if done {
            value_written(final(mem).trace(), c, h)
        } else {
            spare(final(mem).trace(), c, h)
        },
        if r is Ok && r->Ok_0.1 {
            claims_last(old(mem).trace(), final(mem).trace(), c)
        } else {
            builds(old(mem).trace(), final(mem).trace())
        },
        r is Ok && fresh is None ==> uses_allocator(old(mem).trace(), final(mem).trace()),
        final(mem).undisturbed() ==> old(mem).undisturbed(),
        final(mem).undisturbed() && wf(old(mem).words()) && is_table(old(mem).words(), c as int)
            && seq_of(old(mem).words(), c as int) == seq && fresh is None ==> match with_scalar(
            old(mem).words(),
            s@,
        ) {
            (Some(new), w) => r == Ok::<(u64, bool), GraphError>((new, true)) && final(mem).words()
                == revalued(w, c as int, slot as int, new),
            (None, w) => r is Err && final(mem).words() == w,
        },
{
    proof {
        lemma_disciplined_start(Op::Keys { c, child: None }, mem.trace());
        lemma_reads_only_idle(mem.trace(), mem.trace());
        lemma_idle_builds(mem.trace(), mem.trace());
    }
    let newh: Option<u64> = match fresh {
        Some(h) => Some(h),
        None => {
            let h: Option<u64> = new_scalar_node(mem, s);
            proof {
                lemma_builds_disciplined(Op::Keys { c, child: None }, old(mem).trace(), mem.trace());
            }
            h
        },
    };
    let ghost t1 = mem.trace();
    let newh: u64 = match newh {
        Some(h) => h,
        None => {
            return Err(GraphError::RegionFull);
        },
    };
    proof {
        lemma_extends_start(t1);
        if fresh is None {
            lemma_own_block(Seq::empty(), old(mem).trace(), t1, t1, off_of(newh));
            lemma_new_spare(t1, c, newh, s@);
        }
    }
    proof {
        let ws = old(mem).words();
        if mem.undisturbed() && wf(ws) && is_table(ws, c as int) && fresh is None {
            lemma_node(ws, c as int);
            lemma_with_scalar(ws, s@);
            lemma_appended_frame(ws, mem.words(), NODE_HDR + s@.size());
        }
    }
    let done: bool = write_kv_slot(mem, c, slot, newh, seq);
    proof {
        let t0 = old(mem).trace();
        lemma_replace(t0, t1, mem.trace(), c, slot, newh, seq, done);
        if fresh is None {
            lemma_node_made_later(t0, t0, t1, mem.trace(), newh, s@);
            lemma_uses_allocator(t0, t0, t1, mem.trace());
        }
    }
    Ok((newh, done))
}

/// Slot `slot` leads from `key` to the handle `vh`, at version `seq` of the object or map.
spec fn found_at(ws: Seq<u64>, c: int, key: Seq<char>, slot: int, vh: u64, seq: u64) -> bool {
    &&& wf(ws)
    &&& is_table(ws, c)
    &&& slot_of(ws, c, key) == Some(slot)
    &&& 0 <= slot < cap_of(ws, c)
    &&& val_at(ws, c, slot) == vh
    &&& seq_of(ws, c) == seq
}

/// From `t0` to `t1` the thread set slot `slot` of the object or map at `c`, found at version
/// `seq` with the handle `vh`, to `v`; perhaps to the node `fresh`.
#[verifier::opaque]
spec fn found_set(
    t0: Seq<Event>,
    t1: Seq<Event>,
    c: u64,
    slot: u32,
    vh: u64,
    seq: u64,
    v: Value,
    fresh: Option<u64>,
) -> bool {
    ||| rewrites_and_looks(t0, t1, c, slot, vh, v) && at_most_rewrites(t0, t1, off_of(vh), v)
    ||| exists|h: u64| #[trigger]
        slot_written(t0, t1, c, slot, h, seq) && (fresh == Some(h) || node_made(t0, t1, h, v))
}

/// The first access of `t1` beyond `t0` claimed the node at `c` at version `seq`.
pub open spec fn claims_next(t0: Seq<Event>, t1: Seq<Event>, c: u64, seq: u64) -> bool {
    let k = t0.len() as int;
    k < t1.len() && marks(t1[k], seq_off(c)) && claimed(t1, k) == seq
}

/// From `t0` to `t1` the thread claimed the object or map at `c` at version `seq`, and put a slot
/// of it to use for `key` and `v`.
spec fn absent_set(
    t0: Seq<Event>,
    t1: Seq<Event>,
    c: u64,
    seq: u64,
    key: Seq<char>,
    v: Value,
) -> bool {
    claims_next(t0, t1, c, seq) && exists|h: u64| #[trigger]
        entry_made(t1.take(t0.len() as int + 1), t1, c, key, h, seq) && node_made(t0, t1, h, v)
}

/// From `t0` to `t1` the thread claimed the object or map at `c` at version `seq`, and was refused
/// a slot for `key` and `v`, with the error `e` and so much `patience` left.
spec fn absent_refused(
    t0: Seq<Event>,
    t1: Seq<Event>,
    c: u64,
    seq: u64,
    key: Seq<char>,
    v: Value,
    e: GraphError,
    patience: nat,
) -> bool {
    ||| e == GraphError::ContainerFull && claims_next(t0, t1, c, seq) && table_full(
        t1.take(t0.len() as int + 1),
        t1,
        c,
    )
    ||| e == GraphError::RegionFull && (patience == 0 || value_refused(t0, t1, Value::Str(key))
        || value_refused(t0, t1, v))
}

/// What was refused where nothing had been, was refused at the version of the lookup.
pub(crate) proof fn lemma_full_found(
    t0: Seq<Event>,
    t1: Seq<Event>,
    t2: Seq<Event>,
    t3: Seq<Event>,
    c: u64,
    seq: u64,
    key: Seq<char>,
)
    requires
        t0.len() <= t1.len(),
        looked_up(t1, t2, c, key, seq, None),
        extends(t2, t3),
        claims_next(t2, t3, c, seq),
        table_full(t3.take(t2.len() as int + 1), t3, c),
    ensures
        full_found(t0, t3, c, key),
{
    let k = t2.len() as int;
    lemma_claims_lookup(t0, t1, t2, t3, c, key, seq, None, k);
    assert(finds_full(t0, t3, c, key, k, k));
}

/// From `t0` to `t1` a change of `key` of the object or map at `c` that needs nodes for the values
/// `made`, the key and perhaps what it is set to, was refused, with the error `e` and so much
/// `patience` left: the thread has left the container as it was, and has run out of patience, or
/// has seen that the container or the region is full.
pub open spec fn put_refused(
    t0: Seq<Event>,
    t1: Seq<Event>,
    c: u64,
    key: Seq<char>,
    made: Seq<Value>,
    e: GraphError,
    patience: nat,
) -> bool {
    &&& backs_out(
        t0,
        t1,
        c,
        key,
        if made.len() > 1 {
            Some(made[1])
        } else {
            None
        },
    )
    &&& {
        ||| e == GraphError::Busy && patience == 0
        ||| e == GraphError::ContainerFull && full_found(t0, t1, c, key)
        ||| e == GraphError::RegionFull && (patience == 0 || exists|i: int|
            0 <= i < made.len() && value_refused(t0, t1, #[trigger] made[i]))
    }
}

proof fn lemma_set_overwritten(
    t0: Seq<Event>,
    t1: Seq<Event>,
    t2: Seq<Event>,
    c: u64,
    slot: u32,
    vh: u64,
    seq: u64,
    v: Value,
    fresh: Option<u64>,
)
    requires
        extends(t0, t1),
        extends(t1, t2),
        rewrites_and_looks(t1, t2, c, slot, vh, v),
        at_most_rewrites(t0, t2, off_of(vh), v),
    ensures
        found_set(t0, t2, c, slot, vh, seq, v, fresh),
{
    reveal(found_set);
    lemma_extends_start(t2);
    lemma_rewrites_and_looks(t0, t1, t2, c, slot, vh, v);
}

proof fn lemma_set_replaced(
    t0: Seq<Event>,
    t1: Seq<Event>,
    t2: Seq<Event>,
    c: u64,
    slot: u32,
    vh: u64,
    seq: u64,
    v: Value,
    fresh: Option<u64>,
    h: u64,
)
    requires
        extends(t0, t1),
        extends(t1, t2),
        slot_written(t1, t2, c, slot, h, seq),
        fresh == Some(h) || node_made(t1, t2, h, v),
    ensures
        found_set(t0, t2, c, slot, vh, seq, v, fresh),
{
    reveal(found_set);
    lemma_extends_start(t2);
    assert(slot_written(t0, t2, c, slot, h, seq));
    if fresh != Some(h) {
        lemma_node_made_later(t0, t1, t2, t2, h, v);
    }
}

/// Sets a key that was found in slot `slot`, with the handle `vh`, at version `seq`. Gives
/// whether that was done; if not, perhaps a node for the next attempt.
#[verifier::rlimit(50)]
fn set_found<M: Memory>(
    mem: &mut M,
    c: u64,
    slot: u32,
    vh: u64,
    seq: u64,
    s: &Scalar,
    fresh: Option<u64>,
    Ghost(key): Ghost<Seq<char>>,
) -> (r: Result<(Option<u64>, bool), GraphError>)
    requires
        c < OFFSET_LIMIT,
        seq % 2 == 0,
        known(old(mem).trace(), c, slot),
        value_read(old(mem).trace(), c, vh),
        fresh matches Some(h) ==> spare(old(mem).trace(), c, h),
    ensures
        final(mem).patience() <= old(mem).patience(),
        released(old(mem).trace(), final(mem).trace()),
        disciplined(Op::Keys { c, child: None }, old(mem).trace(), final(mem).trace()),
        r matches Ok((_, true)) ==> found_set(
            old(mem).trace(),
            final(mem).trace(),
            c,
            slot,
            vh,
            seq,
            s@,
            fresh,
        ),
        r matches Ok((Some(h), _)) ==> fresh == Some(h) || node_made(
            old(mem).trace(),
            final(mem).trace(),
            h,
            s@,
        ),
        r matches Ok((Some(h), false)) ==> spare(final(mem).trace(), c, h),
        at_most_rewrites(old(mem).trace(), final(mem).trace(), off_of(vh), s@) || if r is Ok
            && r->Ok_0.1 {
            claims_last(old(mem).trace(), final(mem).trace(), c)
        } else {
            builds(old(mem).trace(), final(mem).trace())
        },
        r matches Err(e) ==> (e == GraphError::RegionFull || e == GraphError::Busy) && (
        final(mem).patience() == 0 || e == GraphError::RegionFull && value_refused(
            old(mem).trace(),
            final(mem).trace(),
            s@,
        )),
        final(mem).undisturbed() ==> old(mem).undisturbed(),
        final(mem).undisturbed() && fresh is None && found_at(
            old(mem).words(),
            c as int,
            key,
            slot as int,
            vh,
            seq,
        ) ==> {
            let (done, xs) = scalar_put(old(mem).words(), c as int, key, s@);
            &&& final(mem).words() == xs
            &&& match done {
                Ok(()) => r matches Ok((_, true)),
                Err(e) => r == Err::<(Option<u64>, bool), GraphError>(e),
            }
        },
{
    let fits: bool = is_scalar(vh) && scalar_reusable(mem, vh, s);
    let ghost op = Op::Keys { c, child: None };
    let ghost is_scalar_handle = vh != H_INVALID && !container_kind(kind_of(vh));
    let ghost t0 = old(mem).trace();
    let ghost t1 = mem.trace();
    proof {
        lemma_reads_only_idle(t0, t1);
        lemma_idle_disciplined(op, t0, t1);
        lemma_known(t0, t1, c, slot);
        lemma_idle_builds(t0, t1);
        lemma_extends_start(t1);
        if fresh is Some {
            lemma_spare(t0, t1, t1, c, fresh.unwrap());
        }
        if is_scalar_handle {
            assert(scalar_found(t0, c, vh));
            lemma_scalar_found(t0, t1, c, vh);
        }
    }
    if fits {
        let done: Result<bool, GraphError> = overwrite(mem, c, slot, vh, s, Ghost(key));
        proof {
            lemma_rewrites_later(t0, t1, mem.trace(), off_of(vh), s@);
            lemma_extends_join(t0, t1, mem.trace());
            if fresh is Some {
                lemma_spare_rewrites(t0, mem.trace(), c, vh, s@, fresh.unwrap());
            }
            lemma_disciplined_join(op, t0, t1, mem.trace());
            if done == Ok::<bool, GraphError>(true) {
                lemma_set_overwritten(t0, t1, mem.trace(), c, slot, vh, seq, s@, fresh);
            }
        }
        match done {
            Ok(done) => Ok((fresh, done)),
            Err(e) => Err(e),
        }
    } else {
        let made: Result<(u64, bool), GraphError> = replace(mem, c, slot, s, seq, fresh);
        proof {
            lemma_idle_builds(t0, t1);
            if made is Ok && made->Ok_0.1 {
                lemma_claims_last(t0, t1, mem.trace(), c);
            } else {
                lemma_builds_join(t0, t1, mem.trace());
            }
            lemma_disciplined_join(op, t0, t1, mem.trace());
            lemma_extends_start(mem.trace());
            lemma_value_refused(t0, t1, mem.trace(), mem.trace(), s@);
            if made is Ok && made->Ok_0.1 {
                let h = made->Ok_0.0;
                lemma_set_replaced(t0, t1, mem.trace(), c, slot, vh, seq, s@, fresh, h);
            }
            if made is Ok && fresh != Some(made->Ok_0.0) {
                lemma_extends_start(mem.trace());
                lemma_node_made_later(t0, t1, mem.trace(), mem.trace(), made->Ok_0.0, s@);
            }
        }
        match made {
            Ok((h, done)) => Ok((Some(h), done)),
            Err(e) => Err(e),
        }
    }
}

/// A scalar that the thread has made stays spare while it overwrites another that it has found.
proof fn lemma_spare_rewrites(t0: Seq<Event>, t1: Seq<Event>, c: u64, vh: u64, v: Value, g: u64)
    requires
        extends(t0, t1),
        at_most_rewrites(t0, t1, off_of(vh), v),
        spare(t0, c, g),
        value_read(t0, c, vh),
        vh != H_INVALID,
    ensures
        spare(t1, c, g),
{
    reveal(at_most_rewrites);
    let n = off_of(vh);
    if idle(t0, t1) {
        lemma_idle_builds(t0, t1);
        lemma_extends_start(t1);
        lemma_spare(t0, t1, t1, c, g);
    } else {
        let (k, j) = choose|k: int, j: int| #[trigger] rewrites_once(t0, t1, n, v, k, j);
        let sizes = choose|sizes: u64|
            window_from(t1.take(j), k, n, #[trigger] rewrite_accesses(n, v, sizes));
        let u = t1.take(k);
        lemma_idle_builds(t0, u);
        assert(marks(t1.take(j)[k], seq_off(n)));
        assert(t1.take(u.len() as int) =~= u);
        if n < crate::format::SIZE_HEADER {
            assert(astray(t0, c));
            lemma_astray(t0, t1, c);
        } else {
            assert(marks(t1[k], seq_off(n)));
        }
        lemma_spare(t0, u, t1, c, g);
    }
}

/// Sets a key that was absent at version `seq`, if that is still the version.
#[verifier::rlimit(50)]
fn set_absent<M: Memory>(mem: &mut M, c: u64, seq: u64, key: &str, s: &Scalar) -> (r: Option<
    Result<(), GraphError>,
>)
    requires
        c < OFFSET_LIMIT,
        seq % 2 == 0,
    ensures
        final(mem).patience() <= old(mem).patience(),
        released(old(mem).trace(), final(mem).trace()),
        disciplined(Op::Keys { c, child: None }, old(mem).trace(), final(mem).trace()),
        r is None ==> idle(old(mem).trace(), final(mem).trace()),
        r is Some ==> claims_next(old(mem).trace(), final(mem).trace(), c, seq) && unclaiming(
            final(mem).trace(),
            old(mem).trace().len() as int + 1,
        ),
        r matches Some(Err(_)) ==> given_back(
            final(mem).trace().take(old(mem).trace().len() as int + 1),
            final(mem).trace(),
            c,
            seq,
        ),
        r matches Some(Ok(())) ==> absent_set(
            old(mem).trace(),
            final(mem).trace(),
            c,
            seq,
            key@,
            s@,
        ),
        r matches Some(Err(e)) ==> absent_refused(
            old(mem).trace(),
            final(mem).trace(),
            c,
            seq,
            key@,
            s@,
            e,
            final(mem).patience(),
        ),
        final(mem).undisturbed() ==> old(mem).undisturbed(),
        final(mem).undisturbed() && wf(old(mem).words()) && is_table(old(mem).words(), c as int)
            && slot_of(old(mem).words(), c as int, key@) is None && seq_of(
            old(mem).words(),
            c as int,
        ) == seq ==> {
            let (done, xs) = scalar_put(old(mem).words(), c as int, key@, s@);
            r == Some(done) && final(mem).words() == xs
        },
{
    let ghost t0 = mem.trace();
    let ghost ws = mem.words();
    let ghost ci = c as int;
    let claimed: bool = claim_at(mem, c, seq);
    let ghost t1 = mem.trace();
    proof {
        lemma_disciplined_start(Op::Keys { c, child: None }, t0);
        lemma_disciplined_push(Op::Keys { c, child: None }, t0, t0, t1.last());
        if wf(ws) && is_table(ws, ci) {
            lemma_table_unlocked(ws, ci);
        }
    }
    if !claimed {
        return None;
    }
    proof {
        if mem.undisturbed() && wf(ws) && is_table(ws, ci) && slot_of(ws, ci, key@) is None {
            lemma_scalar_inserted_held(ws, ci, key@, s@, (seq + 1) as u64);
        }
    }
    let made: Result<u64, GraphError> = insert_scalar(mem, c, seq, key, s);
    proof {
        lemma_claimed_and_finished(Op::Keys { c, child: None }, t0, t1.last(), mem.trace(), c, seq);
        lemma_claims_first(t0, t1, mem.trace(), c, seq);
        if made is Ok {
            let h = made->Ok_0;
            assert(mem.trace().take(t0.len() as int + 1) == t1);
            lemma_extends_start(mem.trace());
            lemma_node_made_later(t0, t1, mem.trace(), mem.trace(), h, s@);
        } else {
            lemma_extends_start(mem.trace());
            lemma_value_refused(t0, t1, mem.trace(), mem.trace(), Value::Str(key@));
            lemma_value_refused(t0, t1, mem.trace(), mem.trace(), s@);
        }
    }
    match made {
        Ok(_) => Some(Ok(())),
        Err(e) => Some(Err(e)),
    }
}

/// The claim comes first.
pub(crate) proof fn lemma_claims_first(
    t0: Seq<Event>,
    t1: Seq<Event>,
    t2: Seq<Event>,
    c: u64,
    seq: u64,
)
    requires
        t1 == t0.push(
            Event::Cas { off: seq_off(c), current: seq, new: (seq + 1) as u64, done: true },
        ),
        seq % 2 == 0,
        extends(t1, t2),
    ensures
        claims_next(t0, t2, c, seq),
        extends(t0, t2),
        t2.take(t0.len() as int + 1) == t1,
{
    lemma_extends_start(t0);
    lemma_extends_push(t0, t0, t1.last());
    lemma_extends_join(t0, t1, t2);
    assert(t2.take(t1.len() as int)[t0.len() as int] == t1.last());
}

/// Claiming the object or map, and no version after that, settles a mutation that was quiet so far;
/// if it is given back, the mutation leaves it as it was.
pub(crate) proof fn lemma_claim_settles(
    t0: Seq<Event>,
    t1: Seq<Event>,
    t2: Seq<Event>,
    c: u64,
    key: Seq<char>,
    v: Option<Value>,
    seq: u64,
    back: bool,
)
    requires
        t0.len() <= t1.len(),
        extends(t1, t2),
        quiet(t0, t1, c, key, v),
        claims_next(t1, t2, c, seq),
        unclaiming(t2, t1.len() as int + 1),
        back ==> given_back(t2.take(t1.len() as int + 1), t2, c, seq),
    ensures
        claims_once(t0, t2, c, key, v),
        back ==> backs_out(t0, t2, c, key, v),
{
    reveal(backs_out);
    let k = t1.len() as int;
    assert(t2.take(k) == t1);
    lemma_reads_only_idle(t1, t1);
    lemma_idle_builds(t1, t1);
    lemma_once(t0, t1, t2, c, key, v, k);
}

/// What was set in a slot that was found, was set at the version of the lookup.
proof fn lemma_found_set(
    t0: Seq<Event>,
    t1: Seq<Event>,
    t2: Seq<Event>,
    t3: Seq<Event>,
    c: u64,
    slot: u32,
    vh: u64,
    seq: u64,
    key: Seq<char>,
    v: Value,
    fresh: Option<u64>,
)
    requires
        t0.len() <= t1.len(),
        looked_up(t1, t2, c, key, seq, Some((slot, vh))),
        extends(t2, t3),
        t0.len() <= t2.len(),
        found_set(t2, t3, c, slot, vh, seq, v, fresh),
        fresh matches Some(h) ==> node_made(t0, t2, h, v),
        claims_once(t0, t3, c, key, Some(v)),
        at_most_rewrites(t2, t3, off_of(vh), v) ==> quiet(t0, t3, c, key, Some(v)),
    ensures
        key_set(t0, t3, c, key, v),
{
    reveal(found_set);
    let entry = Some((slot, vh));
    if rewrites_and_looks(t2, t3, c, slot, vh, v) && at_most_rewrites(t2, t3, off_of(vh), v) {
        lemma_looked_up(t0, t1, t2, c, key, seq, entry);
        assert(t3.take(t2.len() as int) == t2);
        assert(overwrites(t0, t3, c, key, v, t2.len() as int, seq, slot, vh));
    } else {
        let h = choose|h: u64| #[trigger]
            slot_written(t2, t3, c, slot, h, seq) && (fresh == Some(h) || node_made(t2, t3, h, v));
        lemma_slot_linked(t0, t1, t2, t3, c, slot, vh, seq, key, h);
        lemma_extends_start(t3);
        if fresh == Some(h) {
            lemma_node_made_later(t0, t0, t2, t3, h, v);
        } else {
            lemma_node_made_later(t0, t2, t3, t3, h, v);
        }
    }
}

/// A handle that was written to a slot that was found, was written at the version of the lookup.
pub(crate) proof fn lemma_slot_linked(
    t0: Seq<Event>,
    t1: Seq<Event>,
    t2: Seq<Event>,
    t3: Seq<Event>,
    c: u64,
    slot: u32,
    vh: u64,
    seq: u64,
    key: Seq<char>,
    h: u64,
)
    requires
        t0.len() <= t1.len(),
        looked_up(t1, t2, c, key, seq, Some((slot, vh))),
        extends(t2, t3),
        slot_written(t2, t3, c, slot, h, seq),
    ensures
        key_linked(t0, t3, c, key, h),
        links(t0, t3, c, key, h, Some((slot, vh)), t2.len() as int, t3.len() - 3),
{
    let entry = Some((slot, vh));
    let k = t3.len() - 3;
    lemma_claims_lookup(t0, t1, t2, t3, c, key, seq, entry, k);
    assert(linked(t3, k, c, key, entry, h));
    assert(links(t0, t3, c, key, h, entry, t2.len() as int, k));
}

/// What was set where nothing had been, was set at the version of the lookup.
proof fn lemma_absent_set(
    t0: Seq<Event>,
    t1: Seq<Event>,
    t2: Seq<Event>,
    t3: Seq<Event>,
    c: u64,
    seq: u64,
    key: Seq<char>,
    v: Value,
)
    requires
        t0.len() <= t1.len(),
        looked_up(t1, t2, c, key, seq, None),
        extends(t2, t3),
        t0.len() <= t2.len(),
        absent_set(t2, t3, c, seq, key, v),
        claims_once(t0, t3, c, key, Some(v)),
    ensures
        key_set(t0, t3, c, key, v),
{
    let h = choose|h: u64| #[trigger]
        entry_made(t3.take(t2.len() as int + 1), t3, c, key, h, seq) && node_made(t2, t3, h, v);
    lemma_absent_linked(t0, t1, t2, t3, c, seq, key, h);
    lemma_extends_start(t3);
    lemma_node_made_later(t0, t2, t3, t3, h, v);
}

/// A handle for which a slot was put to use, was linked at the version of the lookup.
pub(crate) proof fn lemma_absent_linked(
    t0: Seq<Event>,
    t1: Seq<Event>,
    t2: Seq<Event>,
    t3: Seq<Event>,
    c: u64,
    seq: u64,
    key: Seq<char>,
    h: u64,
)
    requires
        t0.len() <= t1.len(),
        looked_up(t1, t2, c, key, seq, None),
        extends(t2, t3),
        claims_next(t2, t3, c, seq),
        entry_made(t3.take(t2.len() as int + 1), t3, c, key, h, seq),
    ensures
        key_linked(t0, t3, c, key, h),
        links(t0, t3, c, key, h, None, t2.len() as int, t2.len() as int),
{
    let entry = None::<(u32, u64)>;
    let k = t2.len() as int;
    lemma_claims_lookup(t0, t1, t2, t3, c, key, seq, entry, k);
    assert(linked(t3, k, c, key, entry, h));
    assert(links(t0, t3, c, key, h, entry, k, k));
}

/// Sets `key` of an object or map to a scalar. A node that has room for it is
/// overwritten in place.
#[verifier::rlimit(80)]
#[verifier::spinoff_prover]
pub fn put_key_scalar<M: Memory>(mem: &mut M, handle: u64, key: &str, s: &Scalar) -> (r: Result<
    (),
    GraphError,
>)
    ensures
        final(mem).patience() <= old(mem).patience(),
        released(old(mem).trace(), final(mem).trace()),
        disciplined(
            Op::Keys { c: off_of(handle), child: None },
            old(mem).trace(),
            final(mem).trace(),
        ),
        claims_once(
            old(mem).trace(),
            final(mem).trace(),
            off_of(handle),
            key@,
            Some(s@),
        ),
        r is Ok ==> key_set(old(mem).trace(), final(mem).trace(), off_of(handle), key@, s@),
        r matches Err(e) ==> put_refused(
            old(mem).trace(),
            final(mem).trace(),
            off_of(handle),
            key@,
            seq![Value::Str(key@), s@],
            e,
            final(mem).patience(),
        ),
        final(mem).undisturbed() ==> old(mem).undisturbed(),
        final(mem).undisturbed() && wf(old(mem).words()) && live_table(old(mem).words(), handle)
            ==> {
            &&& (r, final(mem).words()) == scalar_put(
                old(mem).words(),
                off_of(handle) as int,
                key@,
                s@,
            )
            &&& kept(old(mem).words(), final(mem).words())
        },
{
    let c: u64 = hoff(handle);
    let ghost ws = mem.words();
    let ghost ci = c as int;
    let ghost guard = wf(ws) && live_table(ws, handle);
    proof {
        if guard {
            lemma_node(ws, ci);
            lemma_scalar_put(ws, ci, key@, s@);
        }
    }
    // A node made for an earlier attempt.
    let mut fresh: Option<u64> = None;
    let ghost t0 = mem.trace();
    let ghost op = Op::Keys { c, child: None };
    proof {
        lemma_disciplined_start(op, t0);
        lemma_reads_only_idle(t0, t0);
        lemma_quiet_idle(t0, t0, c, key@, Some(s@));
    }
    loop
        invariant
            t0 == old(mem).trace(),
            op == (Op::Keys { c, child: None }),
            quiet(t0, mem.trace(), c, key@, Some(s@)),
            disciplined(op, t0, mem.trace()),
            c < OFFSET_LIMIT,
            c == off_of(handle),
            ci == c,
            ws == old(mem).words(),
            guard == (wf(ws) && live_table(ws, handle)),
            guard ==> kept(ws, scalar_put(ws, ci, key@, s@).1),
            mem.patience() <= old(mem).patience(),
            released(old(mem).trace(), mem.trace()),
            mem.undisturbed() ==> old(mem).undisturbed(),
            fresh matches Some(h) ==> node_made(t0, mem.trace(), h, s@) && spare(mem.trace(), c, h),
            mem.undisturbed() && guard ==> mem.words() == ws && fresh is None,
        decreases mem.patience(),
    {
        proof {
            if guard {
                lemma_table_unlocked(ws, ci);
            }
        }
        let ghost t1 = mem.trace();
        let found: Option<(u64, Option<(u32, u64)>)> = find_key(mem, c, key);
        let ghost t2 = mem.trace();
        proof {
            lemma_reads_only_idle(t1, t2);
            lemma_quiet_idle(t1, t2, c, key@, Some(s@));
            lemma_quiet_join(t0, t1, t2, c, key@, Some(s@));
            lemma_none(t0, t2, c, key@, Some(s@));
            lemma_idle_disciplined(op, t1, t2);
            lemma_disciplined_join(op, t0, t1, t2);
            lemma_idle_builds(t1, t2);
            lemma_extends_start(t2);
            if fresh is Some {
                lemma_node_made_later(t0, t0, t1, t2, fresh.unwrap(), s@);
                lemma_spare(t1, t2, t2, c, fresh.unwrap());
            }
        }
        match found {
            None => {
                return Err(GraphError::Busy);
            },
            Some((seq, Some((slot, vh)))) => {
                proof {
                    lemma_slot_known(Seq::empty(), t1, t2, t2, c, slot);
                }
                let made: Result<(Option<u64>, bool), GraphError> = set_found(
                    mem,
                    c,
                    slot,
                    vh,
                    seq,
                    s,
                    fresh,
                    Ghost(key@),
                );
                proof {
                    let t3 = mem.trace();
                    lemma_disciplined_join(op, t0, t2, t3);
                    lemma_extends_start(t3);
                    if at_most_rewrites(t2, t3, off_of(vh), s@) {
                        lemma_quiet_rewrite(t1, t2, t3, c, key@, seq, slot, vh, s@);
                        lemma_quiet_join(t0, t2, t3, c, key@, Some(s@));
                        lemma_none(t0, t3, c, key@, Some(s@));
                    } else if made is Ok && made->Ok_0.1 {
                        lemma_once(t0, t2, t3, c, key@, Some(s@), t3.len() - 3);
                    } else {
                        lemma_quiet_builds(t2, t3, c, key@, Some(s@));
                        lemma_quiet_join(t0, t2, t3, c, key@, Some(s@));
                        lemma_none(t0, t3, c, key@, Some(s@));
                    }
                }
                match made {
                    Ok((_, true)) => {
                        proof {
                            let t3 = mem.trace();
                            lemma_found_set(t0, t1, t2, t3, c, slot, vh, seq, key@, s@, fresh);
                        }
                        return Ok(());
                    },
                    Ok((h, false)) => {
                        proof {
                            if h is Some && fresh == h {
                                lemma_node_made_later(t0, t0, t2, mem.trace(), h.unwrap(), s@);
                            } else if h is Some {
                                let t = mem.trace();
                                lemma_node_made_later(t0, t2, t, t, h.unwrap(), s@);
                            }
                        }
                        fresh = h;
                    },
                    Err(e) => {
                        proof {
                            let made = seq![Value::Str(key@), s@];
                            lemma_value_refused(t0, t2, mem.trace(), mem.trace(), made[1]);
                        }
                        return Err(e);
                    },
                }
            },
            Some((seq, None)) => {
                let made: Option<Result<(), GraphError>> = set_absent(mem, c, seq, key, s);
                proof {
                    lemma_disciplined_join(op, t0, t2, mem.trace());
                    if made is None {
                        lemma_quiet_idle(t2, mem.trace(), c, key@, Some(s@));
                        lemma_quiet_join(t0, t2, mem.trace(), c, key@, Some(s@));
                        lemma_none(t0, mem.trace(), c, key@, Some(s@));
                    }
                }
                if let Some(r) = made {
                    proof {
                        lemma_claim_settles(t0, t2, mem.trace(), c, key@, Some(s@), seq, r is Err);
                        lemma_extends_start(mem.trace());
                        if r is Ok {
                            lemma_absent_set(t0, t1, t2, mem.trace(), c, seq, key@, s@);
                        } else {
                            let made = seq![Value::Str(key@), s@];
                            lemma_value_refused(t0, t2, mem.trace(), mem.trace(), made[0]);
                            lemma_value_refused(t0, t2, mem.trace(), mem.trace(), made[1]);
                            if r->Err_0 == GraphError::ContainerFull {
                                lemma_full_found(t0, t1, t2, mem.trace(), c, seq, key@);
                            }
                        }
                    }
                    return r;
                }
                proof {
                    if fresh is Some {
                        lemma_node_made_later(t0, t0, t2, mem.trace(), fresh.unwrap(), s@);
                        lemma_idle_builds(t2, mem.trace());
                        lemma_extends_start(mem.trace());
                        lemma_spare(t2, mem.trace(), mem.trace(), c, fresh.unwrap());
                    }
                }
            },
        }
        if !mem.pause() {
            return Err(GraphError::Busy);
        }
    }
}

/// Links the node behind `child` to `key` of an object or map.
#[verifier::rlimit(80)]
#[verifier::spinoff_prover]
pub fn put_key_handle<M: Memory>(mem: &mut M, handle: u64, key: &str, child: u64) -> (r: Result<
    (),
    GraphError,
>)
    ensures
        final(mem).patience() <= old(mem).patience(),
        released(old(mem).trace(), final(mem).trace()),
        disciplined(
            Op::Keys { c: off_of(handle), child: Some(child) },
            old(mem).trace(),
            final(mem).trace(),
        ),
        claims_once(old(mem).trace(), final(mem).trace(), off_of(handle), key@, None),
        r is Ok ==> handle_linked(
            old(mem).trace(),
            final(mem).trace(),
            off_of(handle),
            key@,
            child,
        ),
        r matches Err(e) ==> put_refused(
            old(mem).trace(),
            final(mem).trace(),
            off_of(handle),
            key@,
            seq![Value::Str(key@)],
            e,
            final(mem).patience(),
        ),
        final(mem).undisturbed() ==> old(mem).undisturbed(),
        final(mem).undisturbed() && wf(old(mem).words()) && live_table(old(mem).words(), handle)
            ==> {
            let ws = old(mem).words();
            &&& (r, final(mem).words()) == handle_put(ws, off_of(handle) as int, key@, child)
            &&& live(ws, child) && not_a_key(ws, off_of(child) as int) ==> kept(
                ws,
                final(mem).words(),
            )
        },
{
    let c: u64 = hoff(handle);
    let ghost ws = mem.words();
    let ghost ci = c as int;
    let ghost guard = wf(ws) && live_table(ws, handle);
    proof {
        if guard {
            lemma_node(ws, ci);
            if live(ws, child) && not_a_key(ws, off_of(child) as int) {
                lemma_handle_put(ws, ci, key@, child);
            }
        }
    }
    let ghost t0 = mem.trace();
    let ghost op = Op::Keys { c, child: Some(child) };
    proof {
        lemma_disciplined_start(op, t0);
        lemma_reads_only_idle(t0, t0);
        lemma_quiet_idle(t0, t0, c, key@, None);
    }
    loop
        invariant
            t0 == old(mem).trace(),
            op == (Op::Keys { c, child: Some(child) }),
            quiet(t0, mem.trace(), c, key@, None),
            disciplined(op, t0, mem.trace()),
            c < OFFSET_LIMIT,
            c == off_of(handle),
            ci == c,
            ws == old(mem).words(),
            guard == (wf(ws) && live_table(ws, handle)),
            guard && live(ws, child) && not_a_key(ws, off_of(child) as int) ==> kept(
                ws,
                handle_put(ws, ci, key@, child).1,
            ),
            mem.patience() <= old(mem).patience(),
            released(old(mem).trace(), mem.trace()),
            mem.undisturbed() ==> old(mem).undisturbed(),
            mem.undisturbed() && guard ==> mem.words() == ws,
        decreases mem.patience(),
    {
        proof {
            if guard {
                lemma_node(ws, ci);
            }
        }
        let ghost t1 = mem.trace();
        let found: Option<(u64, Option<(u32, u64)>)> = find_key(mem, c, key);
        let ghost t2 = mem.trace();
        proof {
            lemma_reads_only_idle(t1, t2);
            lemma_quiet_idle(t1, t2, c, key@, None);
            lemma_quiet_join(t0, t1, t2, c, key@, None);
            lemma_none(t0, t2, c, key@, None);
            lemma_idle_disciplined(op, t1, t2);
            lemma_disciplined_join(op, t0, t1, t2);
        }
        match found {
            None => {
                return Err(GraphError::Busy);
            },
            Some((seq, Some((slot, vh)))) => {
                let done: bool = write_kv_slot(mem, c, slot, child, seq);
                proof {
                    lemma_extends_start(t2);
                    lemma_slot_known(Seq::empty(), t1, t2, t2, c, slot);
                    lemma_slot_disciplined(c, Some(child), t2, mem.trace(), slot, child, seq, done);
                    lemma_disciplined_join(op, t0, t2, mem.trace());
                    if done {
                        let t3 = mem.trace();
                        lemma_slot_claims(t2, t3, c, slot, child, seq);
                        lemma_once(t0, t2, t3, c, key@, None, t3.len() - 3);
                        lemma_slot_linked(t0, t1, t2, t3, c, slot, vh, seq, key@, child);
                    } else {
                        lemma_quiet_idle(t2, mem.trace(), c, key@, None);
                        lemma_quiet_join(t0, t2, mem.trace(), c, key@, None);
                        lemma_none(t0, mem.trace(), c, key@, None);
                    }
                }
                if done {
                    return Ok(());
                }
            },
            Some((seq, None)) => {
                let claimed: bool = claim_at(mem, c, seq);
                let ghost t3 = mem.trace();
                proof {
                    lemma_disciplined_push(op, t0, t2, t3.last());
                    if !claimed {
                        lemma_reads_only_idle(t2, t2);
                        lemma_idle_push(t2, t2, t3.last());
                        lemma_quiet_idle(t2, t3, c, key@, None);
                        lemma_quiet_join(t0, t2, t3, c, key@, None);
                        lemma_none(t0, t3, c, key@, None);
                    }
                }
                if claimed {
                    proof {
                        if guard && mem.undisturbed() {
                            lemma_handle_inserted_held(ws, ci, key@, child, (seq + 1) as u64);
                        }
                    }
                    let r: Result<(), GraphError> = insert_kv_inner(mem, c, seq, key, child);
                    proof {
                        lemma_claims_first(t2, t3, mem.trace(), c, seq);
                        lemma_claim_settles(t0, t2, mem.trace(), c, key@, None, seq, r is Err);
                        if r is Ok {
                            let t4 = mem.trace();
                            lemma_claims_first(t2, t3, t4, c, seq);
                            lemma_absent_linked(t0, t1, t2, t4, c, seq, key@, child);
                        } else {
                            let t4 = mem.trace();
                            let made = seq![Value::Str(key@)];
                            lemma_claims_first(t2, t3, t4, c, seq);
                            lemma_extends_start(t4);
                            lemma_value_refused(t0, t3, t4, t4, made[0]);
                            if r->Err_0 == GraphError::ContainerFull {
                                lemma_full_found(t0, t1, t2, t4, c, seq, key@);
                            }
                        }
                        lemma_claimed_and_finished(op, t2, t3.last(), mem.trace(), c, seq);
                        lemma_disciplined_join(op, t0, t2, mem.trace());
                        lemma_extends_start(mem.trace());
                    }
                    return r;
                }
            },
        }
        if !mem.pause() {
            return Err(GraphError::Busy);
        }
    }
}

/// From `t0` to `t1` the thread read the value `v` behind `h`, with the accesses up to `i`, and
/// then set `key` of the object or map at `c` to it.
pub open spec fn copies(
    t0: Seq<Event>,
    t1: Seq<Event>,
    c: u64,
    key: Seq<char>,
    h: u64,
    v: Value,
    i: int,
) -> bool {
    &&& 0 <= i <= t1.len()
    &&& idle(t0, t1.take(i))
    &&& value_seen(t0, t1.take(i), h, v)
    &&& key_set(t1.take(i), t1, c, key, v)
}

/// From `t0` to `t1` the thread read the value behind `h`, and set `key` of the object or map
/// at `c` to it.
pub open spec fn copied(t0: Seq<Event>, t1: Seq<Event>, c: u64, key: Seq<char>, h: u64) -> bool {
    exists|v: Value, i: int| #[trigger] copies(t0, t1, c, key, h, v, i)
}

/// What was linked by then was linked since earlier.
proof fn lemma_key_linked(
    t0: Seq<Event>,
    t1: Seq<Event>,
    t2: Seq<Event>,
    c: u64,
    key: Seq<char>,
    h: u64,
)
    requires
        t0.len() <= t1.len(),
        key_linked(t1, t2, c, key, h),
    ensures
        key_linked(t0, t2, c, key, h),
{
    let (entry, i, k) = choose|entry: Option<(u32, u64)>, i: int, k: int| #[trigger]
        links(t1, t2, c, key, h, entry, i, k);
    lemma_looked_up(t0, t1, t2.take(i), c, key, claimed(t2, k), entry);
    assert(links(t0, t2, c, key, h, entry, i, k));
}

/// From `t0` to `t1` the thread set `key` of the object or map at `c` to the value behind `h`: it
/// linked a container, and copied a scalar.
pub open spec fn value_linked(
    t0: Seq<Event>,
    t1: Seq<Event>,
    c: u64,
    key: Seq<char>,
    h: u64,
) -> bool {
    if container_kind(kind_of(h)) {
        handle_linked(t0, t1, c, key, h)
    } else {
        copied(t0, t1, c, key, h)
    }
}

proof fn lemma_value_linked(
    t0: Seq<Event>,
    t1: Seq<Event>,
    t2: Seq<Event>,
    c: u64,
    key: Seq<char>,
    h: u64,
    v: Value,
)
    requires
        extends(t0, t1),
        extends(t1, t2),
        value_seen(t0, t1, h, v),
        if container_kind(kind_of(h)) {
            handle_linked(t1, t2, c, key, h)
        } else {
            key_set(t1, t2, c, key, v)
        },
        idle(t0, t1),
    ensures
        value_linked(t0, t2, c, key, h),
{
    lemma_extends_start(t2);
    if container_kind(kind_of(h)) {
        lemma_claims_once(t0, t1, t2, c, key, None);
        lemma_key_linked(t0, t1, t2, c, key, h);
    } else {
        assert(t2.take(t1.len() as int) == t1);
        assert(copies(t0, t2, c, key, h, v, t1.len() as int));
    }
}

/// With the accesses up to `i` the thread read the value `v` behind `h`; with the others it was
/// refused to set `key` of the object or map at `c` to it.
pub open spec fn refuses_value(
    t0: Seq<Event>,
    t1: Seq<Event>,
    c: u64,
    key: Seq<char>,
    h: u64,
    v: Value,
    i: int,
    e: GraphError,
    patience: nat,
) -> bool {
    &&& 0 <= i <= t1.len()
    &&& idle(t0, t1.take(i))
    &&& value_seen(t0, t1.take(i), h, v)
    &&& put_refused(
        t1.take(i),
        t1,
        c,
        key,
        if container_kind(kind_of(h)) {
            seq![Value::Str(key)]
        } else {
            seq![Value::Str(key), v]
        },
        e,
        patience,
    )
}

/// From `t0` to `t1` the thread was refused to set `key` of the object or map at `c` to the value
/// behind `h`.
pub open spec fn value_put_refused(
    t0: Seq<Event>,
    t1: Seq<Event>,
    c: u64,
    key: Seq<char>,
    h: u64,
    e: GraphError,
    patience: nat,
) -> bool {
    e == GraphError::Busy && patience == 0 && idle(t0, t1) || exists|v: Value, i: int| #[trigger]
        refuses_value(t0, t1, c, key, h, v, i, e, patience)
}

proof fn lemma_value_put_refused(
    t0: Seq<Event>,
    t1: Seq<Event>,
    t2: Seq<Event>,
    c: u64,
    key: Seq<char>,
    h: u64,
    v: Value,
    e: GraphError,
    patience: nat,
)
    requires
        idle(t0, t1),
        value_seen(t0, t1, h, v),
        extends(t1, t2),
        put_refused(
            t1,
            t2,
            c,
            key,
            if container_kind(kind_of(h)) {
                seq![Value::Str(key)]
            } else {
                seq![Value::Str(key), v]
            },
            e,
            patience,
        ),
    ensures
        value_put_refused(t0, t2, c, key, h, e, patience),
{
    assert(t2.take(t1.len() as int) == t1);
    assert(refuses_value(t0, t2, c, key, h, v, t1.len() as int, e, patience));
}

/// Sets `key` of an object or map to the value behind `value`: a container is
/// linked, a scalar copied.
#[verifier::rlimit(40)]
pub fn put_key_value<M: Memory>(mem: &mut M, handle: u64, key: &str, value: u64) -> (r: Result<
    (),
    GraphError,
>)
    ensures
        final(mem).patience() <= old(mem).patience(),
        released(old(mem).trace(), final(mem).trace()),
        disciplined(
            Op::Keys { c: off_of(handle), child: Some(value) },
            old(mem).trace(),
            final(mem).trace(),
        ),
        r is Ok ==> value_linked(
            old(mem).trace(),
            final(mem).trace(),
            off_of(handle),
            key@,
            value,
        ),
        r matches Err(e) ==> value_put_refused(
            old(mem).trace(),
            final(mem).trace(),
            off_of(handle),
            key@,
            value,
            e,
            final(mem).patience(),
        ),
        final(mem).undisturbed() ==> old(mem).undisturbed(),
        final(mem).undisturbed() && wf(old(mem).words()) && live_table(old(mem).words(), handle)
            ==> {
            let ws = old(mem).words();
            &&& (r, final(mem).words()) == if value_locked(ws, value) {
                (Err(GraphError::Busy), ws)
            } else {
                value_put(ws, off_of(handle) as int, key@, value)
            }
            &&& live(ws, value) || !container_kind(kind_of(value)) ==> kept(
                ws,
                final(mem).words(),
            )
        },
{
    let ghost op = Op::Keys { c: off_of(handle), child: Some(value) };
    let rv: Result<RVal, GraphError> = handle_to_rval(mem, value);
    let ghost t1 = mem.trace();
    proof {
        lemma_reads_only_idle(old(mem).trace(), t1);
        lemma_idle_disciplined(op, old(mem).trace(), t1);
    }
    let rv: RVal = match rv {
        Ok(rv) => rv,
        Err(e) => {
            return Err(e);
        },
    };
    proof {
        let ws = mem.words();
        if wf(ws) && live(ws, value) && container_kind(kind_of(value)) {
            lemma_container_not_a_key(ws, value);
        }
    }
    let ghost v = rv@;
    let r: Result<(), GraphError> = match rv {
        RVal::Object(_) | RVal::Array(_) | RVal::Mapping(_) => put_key_handle(
            mem,
            handle,
            key,
            value,
        ),
        _ => match rval_to_scalar(rv) {
            Some(scalar) => put_key_scalar(mem, handle, key, &scalar),
            None => Err(GraphError::InvalidValue),
        },
    };
    proof {
        lemma_disciplined_start(op, t1);
        if !container_kind(kind_of(value)) {
            lemma_disciplined_child(off_of(handle), Some(value), t1, mem.trace());
        }
        lemma_disciplined_join(op, old(mem).trace(), t1, mem.trace());
        if r is Ok {
            let t0 = old(mem).trace();
            lemma_value_linked(t0, t1, mem.trace(), off_of(handle), key@, value, v);
        } else {
            let t0 = old(mem).trace();
            let t2 = mem.trace();
            let e = r->Err_0;
            let patience = mem.patience();
            lemma_value_put_refused(t0, t1, t2, off_of(handle), key@, value, v, e, patience);
        }
    }
    r
}

/// Deletes `key` of an object or map; gives whether it was present.
#[verifier::rlimit(50)]
pub fn delete_key<M: Memory>(mem: &mut M, handle: u64, key: &str) -> (r: Result<bool, GraphError>)
    ensures
        final(mem).patience() <= old(mem).patience(),
        released(old(mem).trace(), final(mem).trace()),
        disciplined(
            Op::Keys { c: off_of(handle), child: None },
            old(mem).trace(),
            final(mem).trace(),
        ),
        stays_inside(old(mem).trace(), final(mem).trace(), off_of(handle), 16),
        r == Ok::<bool, GraphError>(true) ==> key_removed(
            old(mem).trace(),
            final(mem).trace(),
            off_of(handle),
            key@,
        ),
        r == Ok::<bool, GraphError>(false) ==> key_absent(
            old(mem).trace(),
            final(mem).trace(),
            off_of(handle),
            key@,
        ),
        r matches Err(e) ==> e == GraphError::Busy && final(mem).patience() == 0 && idle(
            old(mem).trace(),
            final(mem).trace(),
        ),
        final(mem).undisturbed() ==> old(mem).undisturbed(),
        final(mem).undisturbed() && wf(old(mem).words()) && live_table(old(mem).words(), handle)
            ==> {
            let (was, xs) = key_deleted(old(mem).words(), off_of(handle) as int, key@);
            &&& r == Ok::<bool, GraphError>(was)
            &&& final(mem).words() == xs
            &&& kept(old(mem).words(), final(mem).words())
        },
{
    let c: u64 = hoff(handle);
    let ghost ws = mem.words();
    let ghost ci = c as int;
    let ghost guard = wf(ws) && live_table(ws, handle);
    proof {
        lemma_reads_only_idle(mem.trace(), mem.trace());
        if guard {
            lemma_node(ws, ci);
            if slot_of(ws, ci, key@) is Some {
                lemma_deleted(ws, ci, key@);
            }
        }
    }
    loop
        invariant
            c < OFFSET_LIMIT,
            c == off_of(handle),
            ci == c,
            ws == old(mem).words(),
            guard == (wf(ws) && live_table(ws, handle)),
            guard ==> kept(ws, key_deleted(ws, ci, key@).1),
            mem.patience() <= old(mem).patience(),
            released(old(mem).trace(), mem.trace()),
            idle(old(mem).trace(), mem.trace()),
            mem.undisturbed() ==> old(mem).undisturbed(),
            mem.undisturbed() && guard ==> mem.words() == ws,
        decreases mem.patience(),
    {
        let ghost t0 = mem.trace();
        proof {
            if guard {
                lemma_node(ws, ci);
            }
        }
        let found: Option<(u64, Option<(u32, u64)>)> = find_key(mem, c, key);
        let ghost t1 = mem.trace();
        proof {
            lemma_reads_only_idle(t0, t1);
            lemma_idle_join(old(mem).trace(), t0, t1);
            lemma_idle_disciplined(Op::Keys { c, child: None }, old(mem).trace(), t1);
        }
        match found {
            None => {
                return Err(GraphError::Busy);
            },
            Some((seq, None)) => {
                proof {
                    lemma_looked_up(old(mem).trace(), t0, t1, c, key@, seq, None);
                }
                return Ok(false);
            },
            Some((seq, Some((slot, vh)))) => {
                let entry: Option<bool> = empty_slot(mem, c, slot, seq);
                proof {
                    lemma_slot_window(old(mem).trace(), t0, t1, mem.trace(), c, slot, entry);
                    if guard && mem.undisturbed() {
                        lemma_slot_from(
                            ws,
                            ci,
                            encode_utf8(key@),
                            0,
                            cap_of(ws, ci),
                        );
                    }
                }
                match entry {
                    Some(was) => {
                        proof {
                            let t2 = mem.trace();
                            let k = t1.len() as int;
                            let start = old(mem).trace();
                            let entry = Some((slot, vh));
                            lemma_claims_lookup(start, t0, t1, t2, c, key@, seq, entry, k);
                            assert(empties(start, t2, c, key@, was, slot, vh, k, k));
                            assert(key_emptied(start, t2, c, key@, was));
                        }
                        return Ok(true);
                    },
                    None => {
                        proof {
                            lemma_idle_join(old(mem).trace(), t1, mem.trace());
                        }
                    },
                }
            },
        }
        if !mem.pause() {
            return Err(GraphError::Busy);
        }
    }
}

/// A change of a slot that was found keeps to the discipline, and to the object or map.
proof fn lemma_slot_window(
    t0: Seq<Event>,
    t1: Seq<Event>,
    t2: Seq<Event>,
    t3: Seq<Event>,
    c: u64,
    slot: u32,
    entry: Option<bool>,
)
    requires
        c < OFFSET_LIMIT,
        entry is None ==> idle(t2, t3),
        entry matches Some(was) ==> emptied(t3, t2.len() as int, c, slot, was),
        t0.len() <= t1.len(),
        idle(t0, t2),
        extends(t2, t3),
        slot_known(t1, t2, c, slot),
        at_most_one_window(t2, t3, c, slot_at(c, slot) + 16),
    ensures
        stays_inside(t0, t3, c, 16),
        disciplined(Op::Keys { c, child: None }, t0, t3),
{
    let hi = slot_at(c, slot) + 16;
    let j = choose|j: int|
        t1.len() <= j < t2.len() && #[trigger] loads(t2, j, c + 8) && slot < lower(seen(t2, j));
    let end = c + NODE_HDR + 16 * lower(seen(t2, j));
    assert(end_seen(t0, t2, c, 16, end, j));
    lemma_stays_inside(t0, t2, t3, c, 16, end, j, hi);
    lemma_extends_start(t2);
    lemma_slot_known(Seq::empty(), t1, t2, t2, c, slot);
    let op = Op::Keys { c, child: None };
    if idle(t2, t3) {
        lemma_idle_disciplined(op, t2, t3);
    } else {
        let (was, count) = choose|was: u64, count: u64|
            window_from(t3, t2.len() as int, c, #[trigger] empty_accesses(c, slot, was, count));
        let inner = empty_accesses(c, slot, was, count);
        assert(ends_in_window(t2, t3, c, inner));
        assert forall|i: int, off: u64, val: u64|
            t2.len() <= i < t3.len() - 1 && t3[i] == (Event::Store {
                off,
                val,
            }) implies #[trigger] targets(op, t3.take(i), c, off, val) by {
            let t = t3.take(i);
            lemma_window_inner(t2, t3, c, hi, inner, i);
            assert(t.take(t2.len() as int) =~= t3.take(t2.len() as int));
            lemma_known(t2, t, c, slot);
            if off != c + 24 {
                assert(slot_word(t, c, None, slot, off, val));
            }
        }
        lemma_window_disciplined(op, t2, t3, c, hi);
    }
    lemma_idle_disciplined(op, t0, t2);
    lemma_disciplined_join(op, t0, t2, t3);
}

/// Empties slot `slot` of the object or map at `c`, under its version, if that is
/// still `seq`; gives whether the slot was in use.
fn empty_slot<M: Memory>(mem: &mut M, c: u64, slot: u32, seq: u64) -> (r: Option<bool>)
    requires
        c < OFFSET_LIMIT,
        seq % 2 == 0,
    ensures
        final(mem).patience() == old(mem).patience(),
        released(old(mem).trace(), final(mem).trace()),
        at_most_one_window(
            old(mem).trace(),
            final(mem).trace(),
            c,
            slot_at(c, slot) + 16,
        ),
        extends(old(mem).trace(), final(mem).trace()),
        r is None ==> idle(old(mem).trace(), final(mem).trace()),
        r matches Some(was) ==> {
            let k = old(mem).trace().len() as int;
            &&& claims_next(old(mem).trace(), final(mem).trace(), c, seq)
            &&& emptied(final(mem).trace(), k, c, slot, was)
        },
        final(mem).undisturbed() ==> {
            let ws = old(mem).words();
            let was = key_at(ws, c as int, slot as int) != H_INVALID;
            &&& old(mem).undisturbed()
            &&& r == if in_words(ws, c + 16) && seq_of(ws, c as int) == seq {
                Some(was)
            } else {
                None
            }
            &&& r is None ==> final(mem).words() == ws
            &&& r == Some(true) ==> final(mem).words() == without_entry(
                ws,
                c as int,
                slot as int,
            )
        },
{
    broadcast use crate::trace::group_extends;

    if !claim_at(mem, c, seq) {
        return None;
    }
    let ghost k = mem.trace().len() - 1;
    let ghost hi = slot_at(c, slot) + 16;
    let ghost t = mem.trace();
    assert(open_window(old(mem).trace(), t, c, hi, k));
    let at: u64 = c + NODE_HDR + 16 * slot as u64;
    let was: u64 = mem.load(at);
    let ghost t = mem.trace();
    assert(open_window(old(mem).trace(), t, c, hi, k));
    mem.store(at, H_INVALID);
    let ghost t = mem.trace();
    assert(open_window(old(mem).trace(), t, c, hi, k));
    mem.store(at + 8, H_INVALID);
    let ghost t = mem.trace();
    assert(open_window(old(mem).trace(), t, c, hi, k));
    let ghost mut keys: u64 = 0;
    if was != H_INVALID {
        let count: u64 = mem.load(c + 24);
        proof {
            keys = count;
        }
        let ghost t = mem.trace();
        assert(open_window(old(mem).trace(), t, c, hi, k));
        mem.store(c + 24, count.wrapping_sub(1));
    }
    let ghost t = mem.trace();
    assert(open_window(old(mem).trace(), t, c, hi, k));
    assert(released_but(old(mem).trace(), t, seq_off(c)));
    commit(mem, c, seq);
    proof {
        let t0 = old(mem).trace();
        let inner = empty_accesses(c, slot, was, keys);
        lemma_ends_in_window(t0, t0, c, mem.trace()[k], inner);
        assert(mem.trace() =~= (t0.push(mem.trace()[k]) + inner).push(
            store(c + 16, bumped(seq)),
        ));
    }
    assert(mem.undisturbed() && was != H_INVALID ==> mem.words() =~= without_entry(
        old(mem).words(),
        c as int,
        slot as int,
    ));
    Some(was != H_INVALID)
}

// The root.

/// Gets the handle of the root object; creates it if there is none. Nothing if
/// there is no space for it.
pub fn root_handle<M: Memory>(mem: &mut M) -> (root: Option<u64>)
    ensures
        final(mem).patience() <= old(mem).patience(),
        released(old(mem).trace(), final(mem).trace()),
        disciplined(Op::Nothing, old(mem).trace(), final(mem).trace()),
        root matches Some(h) ==> {
            let t = final(mem).trace();
            &&& container_kind(kind_of(h))
            &&& t.len() > old(mem).trace().len()
            &&& gets_root(t.last(), h)
        },
        root is None ==> final(mem).patience() == 0 || no_space(
            old(mem).trace(),
            final(mem).trace(),
            container_size(KIND_OBJECT, DEFAULT_CAP),
        ),
        final(mem).undisturbed() ==> old(mem).undisturbed(),
        final(mem).undisturbed() && wf(old(mem).words()) ==> {
            &&& (root, final(mem).words()) == rooted(old(mem).words())
            &&& kept(old(mem).words(), final(mem).words())
        },
{
    let ghost ws = mem.words();
    let ghost t0 = mem.trace();
    proof {
        lemma_disciplined_start(Op::Nothing, t0);
    }
    loop
        invariant
            t0 == old(mem).trace(),
            disciplined(Op::Nothing, t0, mem.trace()),
            ws == old(mem).words(),
            mem.patience() <= old(mem).patience(),
            released(old(mem).trace(), mem.trace()),
            mem.undisturbed() ==> old(mem).undisturbed(),
            mem.undisturbed() && wf(ws) ==> mem.words() == ws,
        decreases mem.patience(),
    {
        let ghost t = mem.trace();
        let r: u64 = mem.load(OFF_ROOT);
        let ghost t1 = mem.trace();
        proof {
            lemma_disciplined_push(Op::Nothing, t0, t, t1.last());
        }
        if r != H_INVALID && is_container(r) {
            return Some(r);
        }
        let made: Option<u64> = create_object(mem, DEFAULT_CAP);
        let ghost t2 = mem.trace();
        proof {
            lemma_builds_disciplined(Op::Nothing, t1, t2);
            lemma_disciplined_join(Op::Nothing, t0, t1, t2);
        }
        match made {
            Some(h) => {
                proof {
                    if wf(ws) && mem.undisturbed() {
                        lemma_rooted(ws);
                    }
                }
                let set: bool = mem.cas(OFF_ROOT, r, h);
                proof {
                    lemma_disciplined_push(Op::Nothing, t0, t2, mem.trace().last());
                }
                if set {
                    return Some(h);
                }
            },
            None => {
                proof {
                    let size = container_size(KIND_OBJECT, DEFAULT_CAP);
                    lemma_extends_start(t2);
                    lemma_no_space(t0, t1, t2, t2, size);
                    if wf(ws) && mem.undisturbed() {
                        lemma_rooted(ws);
                    }
                }
                return None;
            },
        }
        if !mem.pause() {
            return None;
        }
    }
}

} // verus!
