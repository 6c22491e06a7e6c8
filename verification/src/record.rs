//! What the accesses of an operation were, one by one.
//!
//! These say of an operation, whatever the other threads do, which words it wrote, with
//! which values, and what it had read when it did.
use crate::arena::{block_given, finds_block, takes, LOCK_FREE, OFF_FREE, OFF_LOCK};
use crate::discipline::{
    builds, free_found, lemma_free_found, lemma_made_at, lemma_own_block, own_block,
};
use crate::memory::{word, Event};
use crate::node::{NODE_HDR, STORE_LIMIT};
use crate::trace::{
    at_most_one_window, bumped, changes_nothing, claimed, extends, inside_window, loads, marks,
    seen, seq_off, window,
};
use crate::value::{kind_of, off_of, GraphError, Value, H_INVALID};
use crate::words::{halves, lower};
use vstd::prelude::*;

verus! {

/// A write of `val` to the word at `off`.
pub open spec fn store(off: int, val: u64) -> Event {
    Event::Store { off: off as u64, val }
}

/// A read of `val` off the word at `off`.
pub open spec fn load(off: int, val: u64) -> Event {
    Event::Load { off: off as u64, val }
}

/// Writes of `vals` to the words from `at` on.
pub open spec fn stores(at: int, vals: Seq<u64>) -> Seq<Event> {
    Seq::new(vals.len(), |i: int| store(at + 8 * i, vals[i]))
}

/// The memory `m` would have answered the access like that.
pub open spec fn answered(m: Seq<u64>, e: Event) -> bool {
    e matches Event::Load { off, val } ==> val == word(m, off as int)
}

/// The memory `m` would have answered all reads of `t1` beyond `t0` as they were answered.
pub open spec fn agrees(t0: Seq<Event>, t1: Seq<Event>, m: Seq<u64>) -> bool {
    forall|i: int| t0.len() <= i < t1.len() ==> answered(m, #[trigger] t1[i])
}

pub proof fn lemma_agrees(t0: Seq<Event>, t1: Seq<Event>, t2: Seq<Event>, m: Seq<u64>)
    requires
        extends(t1, t2),
        t0.len() <= t1.len(),
        agrees(t0, t2, m),
    ensures
        agrees(t0, t1, m),
        agrees(t1, t2, m),
{
    assert forall|i: int| t0.len() <= i < t1.len() implies answered(m, #[trigger] t1[i]) by {
        assert(t2.take(t1.len() as int)[i] == t1[i]);
        assert(answered(m, t2[i]));
    }
}

/// The last accesses of `t`, all of them since `t0`, are `s`.
pub open spec fn ends_with(t0: Seq<Event>, t: Seq<Event>, s: Seq<Event>) -> bool {
    t0.len() + s.len() <= t.len() && t.skip(t.len() - s.len()) == s
}

/// With access `k` the thread claimed the node at `n`, then did what `inner` says, and with its
/// last access released the node, two up.
pub open spec fn window_from(t: Seq<Event>, k: int, n: u64, inner: Seq<Event>) -> bool {
    &&& 0 <= k
    &&& t.len() == k + inner.len() + 2
    &&& marks(t[k], seq_off(n))
    &&& t.subrange(k + 1, t.len() - 1) == inner
    &&& t.last() == store(n + 16, bumped(claimed(t, k)))
}

/// With the last accesses of `t`, all of them since `t0`, the thread claimed the node at `n`, did
/// what `inner` says, and released the node.
pub open spec fn ends_in_window(
    t0: Seq<Event>,
    t: Seq<Event>,
    n: u64,
    inner: Seq<Event>,
) -> bool {
    let k = t.len() - inner.len() - 2;
    t0.len() <= k && window_from(t, k, n, inner)
}

// Making nodes.

/// The writes that make the header of a node.
pub open spec fn header_stores(
    off: int,
    tag: u8,
    cap: u32,
    used: u32,
    node_size: u32,
) -> Seq<Event> {
    seq![
        store(off, halves(tag as u32, node_size)),
        store(off + 8, halves(cap, used)),
        store(off + 16, 0),
        store(off + 24, 0),
    ]
}

/// The writes that make a node which holds `v`.
pub open spec fn node_stores(off: int, v: Value) -> Seq<Event> {
    header_stores(
        off,
        v.kind(),
        v.size() as u32,
        v.store() as u32,
        lower((NODE_HDR + v.size()) as u64),
    ) + stores(off + NODE_HDR, v.payload())
}

/// With its accesses up to `d` the thread took a block, released the lock of the allocator, and
/// made the node behind `h` in the block, which holds `v`.
pub open spec fn made_at(t: Seq<Event>, h: u64, v: Value, d: int) -> bool {
    let w = node_stores(off_of(h) as int, v);
    &&& w.len() + 2 <= d <= t.len()
    &&& kind_of(h) == v.kind()
    &&& !v.is_container()
    &&& v.store() <= STORE_LIMIT
    &&& t.take(d).skip(d - w.len()) == w
    &&& t[d - w.len() - 1] == (Event::Store { off: OFF_LOCK, val: LOCK_FREE })
    &&& takes(t[d - w.len() - 2], off_of(h), (NODE_HDR + v.size()) as u64)
}

/// As `made_at`, with a block that the thread was given since `t0`. (Nothing is said of where the
/// block comes from if the thread has found freed blocks.)
pub open spec fn made_since(t0: Seq<Event>, t: Seq<Event>, h: u64, v: Value, d: int) -> bool {
    let w = node_stores(off_of(h) as int, v);
    &&& ends_with(t0, t.take(d), w)
    &&& free_found(t) || t0.len() + w.len() + 2 <= d && made_at(t, h, v, d)
}

/// Among the accesses of `t` since `t0` are those that made the node behind `h`, which
/// holds `v`, in a block that the thread was given.
pub open spec fn node_made(t0: Seq<Event>, t: Seq<Event>, h: u64, v: Value) -> bool {
    kind_of(h) == v.kind() && own_block(t0, t, off_of(h)) && exists|i: int|
        0 <= i <= t.len() && #[trigger] made_since(t0, t, h, v, i)
}

pub proof fn lemma_node_made(t0: Seq<Event>, t: Seq<Event>, h: u64, v: Value)
    requires
        kind_of(h) == v.kind(),
        own_block(t0, t, off_of(h)),
        ends_with(t0, t, node_stores(off_of(h) as int, v)),
        !v.is_container(),
        v.store() <= STORE_LIMIT,
        block_given(
            t0,
            t.take(t.len() - node_stores(off_of(h) as int, v).len()),
            (NODE_HDR + v.size()) as u64,
            off_of(h),
        ),
    ensures
        node_made(t0, t, h, v),
        free_found(t) || made_at(t, h, v, t.len() as int),
{
    let w = node_stores(off_of(h) as int, v);
    let d = t.len() as int;
    let u = t.take(d - w.len());
    let n = (NODE_HDR + v.size()) as u64;
    assert(t.take(d) =~= t);
    if exists|i: int| t0.len() <= i && #[trigger] finds_block(u, i, off_of(h), n) {
        let i = choose|i: int| t0.len() <= i && #[trigger] finds_block(u, i, off_of(h), n);
        assert(u[i] == t[i]);
        assert(loads(t, i, OFF_FREE as int));
        assert(free_found(t));
    } else {
        assert(u.last() == t[d - w.len() - 1]);
        assert(made_at(t, h, v, d));
    }
    assert(made_since(t0, t, h, v, d));
}

/// A node that was made by then was made since earlier.
pub proof fn lemma_node_made_later(
    t0: Seq<Event>,
    t1: Seq<Event>,
    t2: Seq<Event>,
    t3: Seq<Event>,
    h: u64,
    v: Value,
)
    requires
        t0.len() <= t1.len(),
        extends(t2, t3),
        node_made(t1, t2, h, v),
    ensures
        node_made(t0, t3, h, v),
{
    let i = choose|i: int| 0 <= i <= t2.len() && #[trigger] made_since(t1, t2, h, v, i);
    lemma_own_block(t0, t1, t2, t3, off_of(h));
    assert(t3.take(i) =~= t3.take(t2.len() as int).take(i));
    if free_found(t2) {
        lemma_free_found(t2, t3);
    } else {
        lemma_made_at(t2, t3, h, v, i);
    }
    assert(made_since(t0, t3, h, v, i));
}

// Slots of objects and maps.

/// Where the key of slot `slot` of the object or map at `c` is; its value is in the next
/// word.
pub open spec fn slot_at(c: u64, slot: u32) -> int {
    c + NODE_HDR + 16 * slot
}

/// The accesses that put slot `slot` of the object or map at `c`, which has had `count`
/// keys so far, to use, and release the node, claimed at `seq`.
pub open spec fn entry_stores(
    c: u64,
    slot: u32,
    key: u64,
    value: u64,
    count: u64,
    seq: u64,
) -> Seq<Event> {
    seq![
        store(slot_at(c, slot), key),
        store(slot_at(c, slot) + 8, value),
        load(c + 24, count),
        store(c + 24, if count == u64::MAX { 0 } else { (count + 1) as u64 }),
        store(c + 16, bumped(seq)),
    ]
}

/// The thread ended by putting slot `slot` of the object or map at `c`, claimed at `seq`, to use
/// for the key behind `key` and the handle `value`.
pub open spec fn entry_written(
    t0: Seq<Event>,
    t: Seq<Event>,
    c: u64,
    slot: u32,
    key: u64,
    value: u64,
    seq: u64,
) -> bool {
    exists|count: u64|
        ends_with(t0, t, #[trigger] entry_stores(c, slot, key, value, count, seq))
}

/// Since `t0` the thread has seen that slot `slot` of the object or map at `c` is not in use.
pub open spec fn free_seen(t0: Seq<Event>, t: Seq<Event>, c: u64, slot: u32) -> bool {
    exists|j: int|
        t0.len() <= j < t.len() && #[trigger] loads(t, j, slot_at(c, slot)) && seen(t, j)
            == H_INVALID
}

/// Slot `slot` is one that the object or map at `c` has, as far as the thread has seen since `t0`.
pub open spec fn slot_known(t0: Seq<Event>, t: Seq<Event>, c: u64, slot: u32) -> bool {
    exists|j: int|
        t0.len() <= j < t.len() && #[trigger] loads(t, j, c + 8) && slot < lower(seen(t, j))
}

/// Since `t0` the thread has seen that slot `slot` of the object or map at `c` is in use.
pub open spec fn used_seen(t0: Seq<Event>, t: Seq<Event>, c: u64, slot: u32) -> bool {
    exists|j: int|
        t0.len() <= j < t.len() && #[trigger] loads(t, j, slot_at(c, slot)) && seen(t, j)
            != H_INVALID
}

/// With access `j`, since `t0`, the thread has seen how many slots the object or map at `c` has,
/// and since `t0` that all of them are in use.
pub open spec fn sees_full(t0: Seq<Event>, t: Seq<Event>, c: u64, j: int) -> bool {
    &&& t0.len() <= j < t.len()
    &&& loads(t, j, c + 8)
    &&& forall|slot: u32| slot < lower(seen(t, j)) ==> #[trigger] used_seen(t0, t, c, slot)
}

/// Since `t0` the thread has seen that all slots of the object or map at `c` are in use.
pub open spec fn table_full(t0: Seq<Event>, t: Seq<Event>, c: u64) -> bool {
    exists|j: int| #[trigger] sees_full(t0, t, c, j)
}

/// A slot that was seen to be in use by then has been seen since earlier.
pub proof fn lemma_used_seen(
    t0: Seq<Event>,
    t1: Seq<Event>,
    t2: Seq<Event>,
    t3: Seq<Event>,
    c: u64,
    slot: u32,
)
    requires
        t0.len() <= t1.len(),
        extends(t2, t3),
        used_seen(t1, t2, c, slot),
    ensures
        used_seen(t0, t3, c, slot),
{
    let j = choose|j: int|
        t1.len() <= j < t2.len() && #[trigger] loads(t2, j, slot_at(c, slot)) && seen(t2, j)
            != H_INVALID;
    assert(t3.take(t2.len() as int)[j] == t3[j]);
    assert(loads(t3, j, slot_at(c, slot)));
}

/// What was seen to be full by then has been seen since earlier.
pub proof fn lemma_table_full(
    t0: Seq<Event>,
    t1: Seq<Event>,
    t2: Seq<Event>,
    t3: Seq<Event>,
    c: u64,
)
    requires
        t0.len() <= t1.len(),
        extends(t2, t3),
        table_full(t1, t2, c),
    ensures
        table_full(t0, t3, c),
{
    let j = choose|j: int| #[trigger] sees_full(t1, t2, c, j);
    assert(t3.take(t2.len() as int)[j] == t3[j]);
    assert forall|slot: u32| slot < lower(seen(t3, j)) implies #[trigger] used_seen(
        t0,
        t3,
        c,
        slot,
    ) by {
        assert(used_seen(t1, t2, c, slot));
        lemma_used_seen(t0, t1, t2, t3, c, slot);
    }
    assert(sees_full(t0, t3, c, j));
}

/// Since `t0` the thread, which holds the object or map at `c`, claimed at `seq`, found a slot that
/// is not in use, made a node for the text `key`, and ended by putting the slot to use for that
/// key and the handle `value`. Before that it did nothing but look around and make nodes.
pub open spec fn entry_made(
    t0: Seq<Event>,
    t: Seq<Event>,
    c: u64,
    key: Seq<char>,
    value: u64,
    seq: u64,
) -> bool {
    exists|slot: u32, k: u64| #[trigger]
        entry_written(t0, t, c, slot, k, value, seq) && slot_known(t0, t, c, slot) && free_seen(
            t0,
            t,
            c,
            slot,
        ) && node_made(t0, t, k, Value::Str(key)) && text_kept(t0, t.take(t.len() - 5), k, key)
            && builds(t0, t.take(t.len() - 5))
}

/// Since `t0` the thread made the node behind `k` for the text `key`, and did nothing after that
/// but look around and make other nodes.
pub open spec fn text_kept(t0: Seq<Event>, t: Seq<Event>, k: u64, key: Seq<char>) -> bool {
    exists|m: int|
        0 <= m <= t.len() && #[trigger] node_made(t0, t.take(m), k, Value::Str(key)) && builds(
            t.take(m),
            t,
        ) && (free_found(t) || made_at(t, k, Value::Str(key), m))
}

/// The thread ended by writing the handle `value` to slot `slot` of the object or map at `c`, in
/// a window, claimed at `seq`.
pub open spec fn slot_written(
    t0: Seq<Event>,
    t: Seq<Event>,
    c: u64,
    slot: u32,
    value: u64,
    seq: u64,
) -> bool {
    ends_in_window(t0, t, c, seq![store(slot_at(c, slot) + 8, value)]) && claimed(t, t.len() - 3)
        == seq
}

/// From the claim with access `k` on, the thread linked the handle `value` to the text `key` in the
/// object or map at `c`: it wrote it to the slot of `entry`, or, if there is none, put a slot to
/// use.
pub open spec fn linked(
    t: Seq<Event>,
    k: int,
    c: u64,
    key: Seq<char>,
    entry: Option<(u32, u64)>,
    value: u64,
) -> bool {
    match entry {
        Some((slot, _)) => window_from(t, k, c, seq![store(slot_at(c, slot) + 8, value)]),
        None => entry_made(t.take(k + 1), t, c, key, value, claimed(t, k)),
    }
}

/// The accesses that empty slot `slot` of the object or map at `c`, which held the key `was`,
/// where there were `count` keys.
pub open spec fn empty_accesses(c: u64, slot: u32, was: u64, count: u64) -> Seq<Event> {
    let at = slot_at(c, slot);
    let cleared = seq![load(at, was), store(at, H_INVALID), store(at + 8, H_INVALID)];
    if was == H_INVALID {
        cleared
    } else {
        cleared + seq![
            load(c + 24, count),
            store(c + 24, if count == 0 { u64::MAX } else { (count - 1) as u64 }),
        ]
    }
}

/// From the claim with access `k` on, the thread emptied slot `slot` of the object or map at `c`;
/// the slot had been in use if `used`.
pub open spec fn emptied(t: Seq<Event>, k: int, c: u64, slot: u32, used: bool) -> bool {
    exists|was: u64, count: u64|
        window_from(t, k, c, #[trigger] empty_accesses(c, slot, was, count)) && used == (was
            != H_INVALID)
}

// Scalars.

/// The accesses that write `v` onto the node at `n`, the sizes of which were `sizes`.
pub open spec fn rewrite_accesses(n: u64, v: Value, sizes: u64) -> Seq<Event> {
    let payload = stores(n + NODE_HDR, v.payload());
    if v is Str {
        payload + seq![
            load(n + 8, sizes),
            store(n + 8, halves(lower(sizes), v.store() as u32)),
        ]
    } else {
        payload
    }
}

/// The thread ended by writing `v` onto the node at `n`, in a window.
pub open spec fn node_rewritten(t0: Seq<Event>, t: Seq<Event>, n: u64, v: Value) -> bool {
    exists|sizes: u64| ends_in_window(t0, t, n, #[trigger] rewrite_accesses(n, v, sizes))
}

// Arrays.

/// Where slot `i` of the array at `a` is.
pub open spec fn item_word(a: u64, i: int) -> int {
    a + NODE_HDR + 8 * i
}

/// The thread ended by writing the handle `value` to slot `i` of the array at `a`, in a
/// window; it made the array at least that long, if it was not.
pub open spec fn item_written(t0: Seq<Event>, t: Seq<Event>, a: u64, i: int, value: u64) -> bool {
    exists|count: u64| ends_in_window(t0, t, a, #[trigger] extend_accesses(a, i, value, count))
}

/// The accesses that write the handle `value` to slot `i` of the array at `a`, the length of
/// which was `count`.
pub open spec fn extend_accesses(a: u64, i: int, value: u64, count: u64) -> Seq<Event> {
    let written = seq![store(item_word(a, i), value), load(a + 24, count)];
    if i + 1 > count {
        written.push(store(a + 24, (i + 1) as u64))
    } else {
        written
    }
}

/// The last access of `t`, made since `t0`, found that the array at `a` has no slot `i`.
pub open spec fn beyond_seen(t0: Seq<Event>, t: Seq<Event>, a: u64, i: int) -> bool {
    let k = t.len() - 1;
    t0.len() <= k && loads(t, k, a + 8) && i >= lower(seen(t, k))
}

/// The accesses that append the handle `value` to the array at `a`, if that has room: its
/// length was `len`, and its sizes were `sizes`.
pub open spec fn push_accesses(a: u64, value: u64, len: u64, sizes: u64) -> Seq<Event> {
    let looked = seq![load(a + 24, len), load(a + 8, sizes)];
    if len < lower(sizes) {
        looked + seq![store(item_word(a, len as int), value), store(a + 24, (len + 1) as u64)]
    } else {
        looked
    }
}

/// The thread ended by appending the handle `value` to the array at `a`, or by finding it
/// full, in a window.
pub open spec fn push_made(
    t0: Seq<Event>,
    t: Seq<Event>,
    a: u64,
    value: u64,
    r: Result<u32, GraphError>,
) -> bool {
    exists|len: u64, sizes: u64|
        ends_in_window(t0, t, a, #[trigger] push_accesses(a, value, len, sizes)) && r == if len
            < lower(sizes) {
            Ok((len + 1) as u32)
        } else {
            Err(GraphError::ArrayFull)
        }
}

// Going on.

/// What was written to an array by then was written since earlier.
pub proof fn lemma_item_written(
    t0: Seq<Event>,
    t1: Seq<Event>,
    t2: Seq<Event>,
    a: u64,
    i: int,
    value: u64,
)
    requires
        t0.len() <= t1.len(),
        item_written(t1, t2, a, i, value),
    ensures
        item_written(t0, t2, a, i, value),
{
    let count = choose|count: u64|
        ends_in_window(t1, t2, a, #[trigger] extend_accesses(a, i, value, count));
    assert(ends_in_window(t0, t2, a, extend_accesses(a, i, value, count)));
}

/// What was appended by then was appended since earlier.
pub proof fn lemma_push_made(
    t0: Seq<Event>,
    t1: Seq<Event>,
    t2: Seq<Event>,
    a: u64,
    value: u64,
    r: Result<u32, GraphError>,
)
    requires
        t0.len() <= t1.len(),
        push_made(t1, t2, a, value, r),
    ensures
        push_made(t0, t2, a, value, r),
{
    let (len, sizes) = choose|len: u64, sizes: u64|
        ends_in_window(t1, t2, a, #[trigger] push_accesses(a, value, len, sizes)) && r == if len
            < lower(sizes) {
            Ok((len + 1) as u32)
        } else {
            Err(GraphError::ArrayFull)
        };
    assert(ends_in_window(t0, t2, a, push_accesses(a, value, len, sizes)));
}

/// A slot that was put to use by then was put to use since earlier.
pub proof fn lemma_entry_written(
    t0: Seq<Event>,
    t1: Seq<Event>,
    t2: Seq<Event>,
    c: u64,
    slot: u32,
    key: u64,
    value: u64,
    seq: u64,
)
    requires
        t0.len() <= t1.len(),
        entry_written(t1, t2, c, slot, key, value, seq),
    ensures
        entry_written(t0, t2, c, slot, key, value, seq),
{
    let count = choose|count: u64|
        ends_with(t1, t2, #[trigger] entry_stores(c, slot, key, value, count, seq));
    assert(ends_with(t0, t2, entry_stores(c, slot, key, value, count, seq)));
}

/// A slot that was seen to be free by then has been seen to be.
pub proof fn lemma_free_seen(
    t0: Seq<Event>,
    t1: Seq<Event>,
    t2: Seq<Event>,
    t3: Seq<Event>,
    c: u64,
    slot: u32,
)
    requires
        t0.len() <= t1.len(),
        extends(t2, t3),
        free_seen(t1, t2, c, slot),
    ensures
        free_seen(t0, t3, c, slot),
{
    let j = choose|j: int|
        t1.len() <= j < t2.len() && #[trigger] loads(t2, j, slot_at(c, slot)) && seen(t2, j)
            == H_INVALID;
    assert(t3.take(t2.len() as int)[j] == t3[j]);
    assert(loads(t3, j, slot_at(c, slot)));
}

/// What is written in a window, before the release, is part of what was done in it.
pub proof fn lemma_window_inner(
    t0: Seq<Event>,
    t1: Seq<Event>,
    n: u64,
    hi: int,
    inner: Seq<Event>,
    i: int,
)
    requires
        at_most_one_window(t0, t1, n, hi),
        ends_in_window(t0, t1, n, inner),
        t0.len() <= i < t1.len() - 1,
        t1[i] is Store,
    ensures
        ({
            let x = i - (t1.len() - inner.len() - 1);
            0 <= x < inner.len() && t1[i] == inner[x]
        }),
{
    let k = t1.len() - inner.len() - 2;
    assert(!changes_nothing(t1[t1.len() - 1]));
    let w = choose|w: int| window(t0, t1, n, hi, w);
    let u = t1.drop_last();
    if i < w {
        assert(changes_nothing(u.take(w)[i]));
    }
    if w < k {
        assert(inside_window(u[k], n, hi));
    }
    assert(t1.subrange(k + 1, t1.len() - 1)[i - k - 1] == t1[i]);
}

pub proof fn lemma_ends_with(t0: Seq<Event>, t1: Seq<Event>, s: Seq<Event>)
    requires
        t0.len() <= t1.len(),
    ensures
        ends_with(t0, t1 + s, s),
{
    assert((t1 + s).skip(t1.len() as int) =~= s);
}

/// What a window did, written down.
pub proof fn lemma_ends_in_window(
    t0: Seq<Event>,
    t1: Seq<Event>,
    n: u64,
    e: Event,
    inner: Seq<Event>,
)
    requires
        t0.len() <= t1.len(),
        marks(e, seq_off(n)),
    ensures
        ends_in_window(
            t0,
            (t1.push(e) + inner).push(store(n + 16, bumped(e->Cas_current))),
            n,
            inner,
        ),
{
    let t = (t1.push(e) + inner).push(store(n + 16, bumped(e->Cas_current)));
    assert(t.subrange(t1.len() as int + 1, t.len() - 1) =~= inner);
}

} // verus!
