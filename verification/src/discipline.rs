//! The discipline of a thread: what it changes, and when.
//!
//! A thread writes to a node while it holds the node's version, and to a block that
//! the allocator has just given it. Of the header it changes what allocating and
//! setting the root ask for. Every operation keeps to this, whatever the other threads
//! do.
use crate::arena::{
    aligned, alloc_access, block_given, block_seen, finds_block, takes, FREE_EMPTY, OFF_BUMP,
    OFF_CAPACITY, OFF_FREE, OFF_LOCK, OFF_ROOT, SIZE_HEADER,
};
use crate::memory::Event;
use crate::node::NODE_HDR;
use crate::record::{made_at, node_stores, slot_at, slot_known, store};
use crate::trace::{
    at_most_one_window, bumped, changes_nothing, claimed, extends, idle, inside_window,
    lemma_extends_join, lemma_extends_start, lemma_reads_only_idle, loads, marks, seen, seq_off,
    window,
};
use crate::value::{
    container_kind, kind_of, off_of, Value, H_INVALID, KIND_ARRAY, KIND_STR, OFFSET_LIMIT,
};
use crate::words::{lower, upper};
use vstd::prelude::*;

verus! {

/// The word at `off` is part of a block that the allocator gave the thread since `t0`.
pub open spec fn own_block(t0: Seq<Event>, t: Seq<Event>, off: u64) -> bool {
    exists|b: u64, n: u64| #[trigger] block_seen(t0, t, n, b) && b <= off < b + n
}

/// The access writes a word of the block of `n` bytes at `b`.
pub open spec fn in_block(e: Event, b: u64, n: u64) -> bool {
    e matches Event::Store { off, .. } && b <= off < b + n
}

/// With access `i` the thread took the block of `n` bytes at `b`; since then it released the lock
/// of the allocator, and wrote to the block.
pub open spec fn run(t: Seq<Event>, i: int, b: u64, n: u64) -> bool {
    &&& 0 <= i
    &&& i + 2 <= t.len()
    &&& takes(t[i], b, n)
    &&& writes(t[i + 1], OFF_LOCK)
    &&& forall|j: int| i + 2 <= j < t.len() ==> in_block(#[trigger] t[j], b, n)
}

/// The access is a write to a word before that at `off`.
pub open spec fn writes_before(e: Event, off: u64) -> bool {
    e matches Event::Store { off: o, .. } && o < off
}

/// The access writes the first word of the node at `b`, which is no container.
pub open spec fn tags_scalar(e: Event, b: u64) -> bool {
    e matches Event::Store { off, val } && off == b && !container_kind(lower(val) as u8)
}

/// The thread, which took the block of `n` bytes at `b` with access `i`, may go on by writing the
/// word at `off`: it comes behind those that it has written, and belongs to the header of a node or
/// to the payload of a scalar.
pub open spec fn run_on(t: Seq<Event>, i: int, b: u64, n: u64, off: u64) -> bool {
    &&& run(t, i, b, n)
    &&& b <= off < b + n
    &&& (off - b) % 8 == 0
    &&& t.len() > i + 2 ==> writes_before(t.last(), off)
    &&& off >= b + 32 ==> off >= b + NODE_HDR && t.len() > i + 2 && tags_scalar(t[i + 2], b)
}

/// The word at `off` is part of a block that the thread found on the free list since `t0`.
pub open spec fn in_freed(t0: Seq<Event>, t: Seq<Event>, off: u64) -> bool {
    exists|b: u64, n: u64, i: int|
        t0.len() <= i && #[trigger] finds_block(t, i, b, n) && b <= off < b + n
}

/// The word at `off` is part of a block that the thread has taken since `t0`, and in which it is
/// making a node.
pub open spec fn in_run(t0: Seq<Event>, t: Seq<Event>, off: u64) -> bool {
    exists|i: int, b: u64, n: u64| t0.len() <= i && #[trigger] run_on(t, i, b, n, off)
}

/// The thread is making a node, in a block that it was given since `t0`, and may write the word at
/// `off` next.
pub open spec fn open_block(t0: Seq<Event>, t: Seq<Event>, off: u64) -> bool {
    in_run(t0, t, off) || in_freed(t0, t, off)
}

/// Such a block is the thread's own.
pub proof fn lemma_open_block(t0: Seq<Event>, t: Seq<Event>, off: u64)
    requires
        open_block(t0, t, off),
    ensures
        own_block(t0, t, off),
        in_freed(t0, t, off) ==> free_found(t),
{
    if in_freed(t0, t, off) {
        let (b, n, i) = choose|b: u64, n: u64, i: int|
            t0.len() <= i && #[trigger] finds_block(t, i, b, n) && b <= off < b + n;
        assert(t[i] == (Event::Load { off: OFF_FREE, val: b }));
        assert(block_seen(t0, t, n, b));
        assert(loads(t, i, OFF_FREE as int));
    } else {
        let (i, b, n) = choose|i: int, b: u64, n: u64|
            t0.len() <= i && #[trigger] run_on(t, i, b, n, off);
        assert(takes(t[i], b, n));
        assert(block_seen(t0, t, n, b));
    }
}

pub proof fn lemma_open_earlier(t0: Seq<Event>, t1: Seq<Event>, t: Seq<Event>, off: u64)
    requires
        t0.len() <= t1.len(),
        open_block(t1, t, off),
    ensures
        open_block(t0, t, off),
{
    if in_run(t1, t, off) {
        let (i, b, n) = choose|i: int, b: u64, n: u64|
            t1.len() <= i && #[trigger] run_on(t, i, b, n, off);
        assert(t0.len() <= i && run_on(t, i, b, n, off));
    } else {
        let (b, n, i) = choose|b: u64, n: u64, i: int|
            t1.len() <= i && #[trigger] finds_block(t, i, b, n) && b <= off < b + n;
        assert(t0.len() <= i && finds_block(t, i, b, n));
    }
}

/// The thread has found a block on the free list.
pub open spec fn free_found(t: Seq<Event>) -> bool {
    exists|j: int|
        0 <= j < t.len() && #[trigger] loads(t, j, OFF_FREE as int) && seen(t, j)
            != FREE_EMPTY
}

/// The thread may write the word at `off` without holding a node: it belongs to the
/// allocator, or to a block that the thread was given since `t0`, and in which it is making a node.
/// The free list is changed only by who has found a block on it.
pub open spec fn unguarded(t0: Seq<Event>, t: Seq<Event>, off: u64) -> bool {
    off == OFF_LOCK || off == OFF_FREE && free_found(t) || open_block(t0, t, off)
}

/// The access writes the word at `off`.
pub open spec fn writes(e: Event, off: u64) -> bool {
    e matches Event::Store { off: o, .. } && o == off
}

/// The access concerns the version at `off`: it claims or writes it.
pub open spec fn moves_version(e: Event, off: u64) -> bool {
    marks(e, off) || writes(e, off)
}

/// With access `k`, since `t0`, the thread claimed the version of the node at `m`, and has
/// left it alone since. (The words of the header, and of blocks in which it makes nodes, are not
/// the versions of nodes.)
pub open spec fn holds_since(t0: Seq<Event>, t: Seq<Event>, m: u64, k: int) -> bool {
    let o = seq_off(m);
    &&& m < OFFSET_LIMIT
    &&& t0.len() <= k < t.len()
    &&& marks(t[k], o)
    &&& o < SIZE_HEADER || forall|j: int|
        k < j < t.len() && moves_version(#[trigger] t[j], o) ==> t[j] is Store && open_block(
            t0,
            t.take(j),
            o,
        )
}

/// What an operation is about: the keys of the object or map at `c`, and the node behind `child`
/// that may be linked to one of them; the elements of the array at `a`; or no container.
pub ghost enum Op {
    Keys { c: u64, child: Option<u64> },
    Items { a: u64 },
    Nothing,
}

/// What an operation on the container behind `handle` is about.
pub open spec fn work_of(handle: u64, child: Option<u64>) -> Op {
    if kind_of(handle) == KIND_ARRAY {
        Op::Items { a: off_of(handle) }
    } else {
        Op::Keys { c: off_of(handle), child }
    }
}

/// Slot `slot` is one that the object or map at `c` has, as far as the thread has seen.
pub open spec fn known(t: Seq<Event>, c: u64, slot: u32) -> bool {
    slot_known(Seq::empty(), t, c, slot)
}

/// The thread was given the block in which the node behind `g` stands.
pub open spec fn made(t: Seq<Event>, g: u64) -> bool {
    own_block(Seq::empty(), t, off_of(g))
}

/// With access `j` the thread has read the handle `g` off slot `slot` of the object or map at `c`.
pub open spec fn reads_value(t: Seq<Event>, c: u64, g: u64, slot: u32, j: int) -> bool {
    &&& 0 <= j < t.len()
    &&& loads(t, j, slot_at(c, slot) + 8)
    &&& seen(t, j) == g
    &&& known(t, c, slot)
}

/// The thread has found the handle `g` in the object or map at `c`.
pub open spec fn value_read(t: Seq<Event>, c: u64, g: u64) -> bool {
    exists|slot: u32, j: int| #[trigger] reads_value(t, c, g, slot, j)
}

/// With access `j` the thread has written the handle `g` to slot `slot` of the object or map at
/// `c`.
pub open spec fn writes_value(t: Seq<Event>, c: u64, g: u64, slot: u32, j: int) -> bool {
    &&& 0 <= j < t.len()
    &&& t[j] == store(slot_at(c, slot) + 8, g)
    &&& slot_at(c, slot) + 8 <= u64::MAX
    &&& known(t.take(j), c, slot)
}

/// The thread has put the handle `g` into the object or map at `c`.
pub open spec fn value_written(t: Seq<Event>, c: u64, g: u64) -> bool {
    exists|slot: u32, j: int| #[trigger] writes_value(t, c, g, slot, j)
}

/// `g` is the handle of a scalar that the thread has found in the object or map at `c`, or has put
/// there.
pub open spec fn scalar_found(t: Seq<Event>, c: u64, g: u64) -> bool {
    g != H_INVALID && !container_kind(kind_of(g)) && (value_read(t, c, g) || value_written(t, c, g))
}

/// With its accesses up to `d` the thread made the node behind `g` for the text `s`, and since then
/// it did nothing but look around and make nodes.
pub open spec fn text_at(t: Seq<Event>, g: u64, s: Seq<char>, d: int) -> bool {
    made_at(t, g, Value::Str(s), d) && builds(t.take(d), t)
}

/// `g` may become a key: it leads to a text that the thread has just made. (Nothing is said of a
/// thread that has found freed blocks.)
pub open spec fn text_ready(t: Seq<Event>, g: u64) -> bool {
    made(t, g) && (free_found(t) || exists|s: Seq<char>, d: int| #[trigger] text_at(t, g, s, d))
}

/// From access `d` on the thread did nothing but look around and make nodes, up to access `y`, with
/// which it claimed a node.
pub open spec fn claims_at(t: Seq<Event>, d: int, y: int) -> bool {
    &&& 0 <= d <= y < t.len()
    &&& builds(t.take(d), t.take(y))
    &&& exists|off: u64| off >= SIZE_HEADER && #[trigger] marks(t[y], off)
}

/// After access `d` the first thing that the thread did, but look around and make nodes, was to
/// claim a node.
pub open spec fn claims_after(t: Seq<Event>, d: int) -> bool {
    exists|y: int| #[trigger] claims_at(t, d, y)
}

/// The access writes the handle `g` to the word of the key in a slot of the object or map at `c`
/// that the thread knows of.
pub open spec fn writes_key(t: Seq<Event>, e: Event, c: u64, g: u64) -> bool {
    exists|slot: u32| #[trigger]
        known(t, c, slot) && slot_at(c, slot) <= u64::MAX && e == store(slot_at(c, slot), g)
}

/// After access `d` the thread did nothing but look around and make nodes, but for the last access:
/// it made a text that it had made before a key of the object or map at `c`.
pub open spec fn follows_text(t: Seq<Event>, c: u64, d: int) -> bool {
    let u = t.drop_last();
    &&& 0 <= d < t.len()
    &&& builds(t.take(d), u)
    &&& exists|g: u64, s: Seq<char>, k: int|
        k < d && #[trigger] text_at(u, g, s, k) && writes_key(u, t.last(), c, g)
}

/// With its accesses up to `d` the thread made the node behind `g`, for `v`, and it has not become
/// a key.
pub open spec fn ready_at(t: Seq<Event>, c: u64, g: u64, v: Value, d: int) -> bool {
    made_at(t, g, v, d) && (claims_after(t, d) || follows_text(t, c, d))
}

/// The thread takes header words for nodes: that of the object or map at `c`, or of a handle that
/// it has found there.
pub open spec fn astray(t: Seq<Event>, c: u64) -> bool {
    c < SIZE_HEADER || exists|g: u64| #[trigger]
        value_read(t, c, g) && g != H_INVALID && off_of(g) < SIZE_HEADER
}

/// `g` leads to a scalar that the thread has made, and it is not the text of a key. (Nothing is
/// said of a thread that has found freed blocks, or takes header words for nodes.)
pub open spec fn value_ready(t: Seq<Event>, c: u64, g: u64) -> bool {
    made(t, g) && (free_found(t) || astray(t, c) || exists|v: Value, d: int| #[trigger]
        ready_at(t, c, g, v, d))
}

/// With its accesses up to `d` the thread made the node behind `g`, for `v`, and has not linked it.
pub open spec fn spare_at(t: Seq<Event>, g: u64, v: Value, d: int) -> bool {
    made_at(t, g, v, d) && (builds(t.take(d), t) || claims_after(t, d))
}

/// `g` leads to a scalar that the thread has made and not linked.
#[verifier::opaque]
pub open spec fn spare(t: Seq<Event>, c: u64, g: u64) -> bool {
    made(t, g) && (free_found(t) || astray(t, c) || exists|v: Value, d: int| #[trigger]
        spare_at(t, g, v, d))
}

/// The handle `val` may become a value of the object or map at `c`: it is none, it is `child`, or
/// it leads to a scalar that the thread has made.
pub open spec fn linkable(t: Seq<Event>, c: u64, child: Option<u64>, val: u64) -> bool {
    val == H_INVALID || child == Some(val) || value_ready(t, c, val)
}

/// The word at `off` is that of the key in slot `slot` of the object or map at `c`, and `val` is
/// none, or may become a key; or it is that of the value, and `val` may become a value.
pub open spec fn slot_word(
    t: Seq<Event>,
    c: u64,
    child: Option<u64>,
    slot: u32,
    off: u64,
    val: u64,
) -> bool {
    &&& known(t, c, slot)
    &&& off == slot_at(c, slot) && (val == H_INVALID || text_ready(t, val)) || off == slot_at(
        c,
        slot,
    ) + 8 && linkable(t, c, child, val)
}

/// `val` may be written to the word at `off` of the object or map at `c`: its number of keys, or
/// one of its slots.
pub open spec fn table_word(
    t: Seq<Event>,
    c: u64,
    child: Option<u64>,
    off: u64,
    val: u64,
) -> bool {
    off == c + 24 || exists|slot: u32| #[trigger] slot_word(t, c, child, slot, off, val)
}

/// Access `j` has read that the node at `n`, with `unit` bytes for each unit of its capacity, goes
/// beyond the word at `off`, which lies behind its header.
pub open spec fn has_room(t: Seq<Event>, n: u64, unit: int, off: u64, j: int) -> bool {
    &&& 0 <= j < t.len()
    &&& loads(t, j, n + 8)
    &&& n + NODE_HDR <= off < n + NODE_HDR + aligned(unit * lower(seen(t, j)))
}

/// Access `j`, which came after a claim of the node at `n`, has read its capacity; with `val` it
/// stays, and is not exceeded.
pub open spec fn keeps_cap(t: Seq<Event>, n: u64, val: u64, j: int) -> bool {
    &&& 0 <= j < t.len()
    &&& exists|k: int| 0 <= k < j && marks(#[trigger] t[k], seq_off(n))
    &&& loads(t, j, n + 8)
    &&& lower(val) == lower(seen(t, j))
    &&& exists|i: int|
        0 <= i < t.len() && #[trigger] loads(t, i, n + 8) && upper(val) <= lower(seen(t, i))
}

/// `val` may be written to the word at `off` of the scalar behind `g`: its payload, or its sizes,
/// where the capacity stays. (Every scalar but a text has at least one word of payload.)
pub open spec fn scalar_word(t: Seq<Event>, g: u64, off: u64, val: u64) -> bool {
    let n = off_of(g);
    ||| off == n + NODE_HDR && kind_of(g) != KIND_STR
    ||| exists|j: int| #[trigger] has_room(t, n, 1, off, j)
    ||| off == n + 8 && exists|j: int| #[trigger] keeps_cap(t, n, val, j)
}

/// The word at `off` of the array at `a` may be written: its length, or one of its slots.
pub open spec fn list_word(t: Seq<Event>, a: u64, off: u64) -> bool {
    off == a + 24 || exists|j: int| #[trigger] has_room(t, a, 8, off, j)
}

/// The operation may write `val` to the word at `off` of the node at `m`: its container, or a
/// scalar that it has found there or has made.
pub open spec fn targets(
    op: Op,
    t: Seq<Event>,
    m: u64,
    off: u64,
    val: u64,
) -> bool {
    match op {
        Op::Keys { c, child } => {
            ||| m == c && table_word(t, c, child, off, val)
            ||| exists|g: u64| #[trigger]
                scalar_found(t, c, g) && off_of(g) == m && scalar_word(t, g, off, val)
        },
        Op::Items { a } => m == a && list_word(t, a, off),
        Op::Nothing => false,
    }
}

/// The operation may claim the version at `off`: that of its container, or of a scalar that it has
/// found there or has made, or the lock of the allocator.
pub open spec fn claimable(op: Op, t: Seq<Event>, off: u64) -> bool {
    ||| off == OFF_LOCK
    ||| match op {
        Op::Keys { c, .. } => off == seq_off(c) || exists|g: u64| #[trigger]
            scalar_found(t, c, g) && off == seq_off(off_of(g)),
        Op::Items { a } => off == seq_off(a),
        Op::Nothing => false,
    }
}

/// The access is one to the node at `m`, which the thread claimed with access `k`: it
/// releases the version, two up, or writes what the operation may write.
pub open spec fn to_held(
    op: Op,
    t: Seq<Event>,
    m: u64,
    k: int,
    off: u64,
    val: u64,
) -> bool {
    if off == seq_off(m) {
        val == bumped(claimed(t, k)) && claimable(op, t, off)
    } else {
        targets(op, t, m, off, val)
    }
}

/// The access, after the accesses `t`, is one that the holder of the node at `m` may make: it
/// reads, or writes what the operation may write, but not the version.
pub open spec fn works_on(op: Op, t: Seq<Event>, e: Event, m: u64) -> bool {
    match e {
        Event::Load { .. } => true,
        Event::Store { off, val } => off != seq_off(m) && targets(op, t, m, off, val),
        Event::Cas { .. } => false,
    }
}

/// What has been seen stays seen.
pub proof fn lemma_known(t1: Seq<Event>, t2: Seq<Event>, c: u64, slot: u32)
    requires
        extends(t1, t2),
        known(t1, c, slot),
    ensures
        known(t2, c, slot),
{
    lemma_slot_known(Seq::empty(), Seq::empty(), t1, t2, c, slot);
}

pub proof fn lemma_made(t1: Seq<Event>, t2: Seq<Event>, g: u64)
    requires
        extends(t1, t2),
        made(t1, g),
    ensures
        made(t2, g),
{
    lemma_own_block(Seq::empty(), Seq::empty(), t1, t2, off_of(g));
}

pub proof fn lemma_scalar_found(t1: Seq<Event>, t2: Seq<Event>, c: u64, g: u64)
    requires
        extends(t1, t2),
        scalar_found(t1, c, g),
    ensures
        scalar_found(t2, c, g),
{
    if value_written(t1, c, g) {
        let (slot, j) = choose|slot: u32, j: int| #[trigger] writes_value(t1, c, g, slot, j);
        assert(t2.take(t1.len() as int)[j] == t2[j]);
        assert(t2.take(j) =~= t1.take(j)) by {
            assert(t2.take(t1.len() as int).take(j) =~= t2.take(j));
        }
        assert(writes_value(t2, c, g, slot, j));
    } else {
        let (slot, j) = choose|slot: u32, j: int| #[trigger] reads_value(t1, c, g, slot, j);
        lemma_known(t1, t2, c, slot);
        assert(t2.take(t1.len() as int)[j] == t2[j]);
        assert(reads_value(t2, c, g, slot, j));
    }
}

/// What was found on the free list stays found.
pub proof fn lemma_free_found(t1: Seq<Event>, t2: Seq<Event>)
    requires
        extends(t1, t2),
        free_found(t1),
    ensures
        free_found(t2),
{
    let j = choose|j: int|
        0 <= j < t1.len() && #[trigger] loads(t1, j, OFF_FREE as int) && seen(t1, j) != FREE_EMPTY;
    assert(t2.take(t1.len() as int)[j] == t2[j]);
    assert(loads(t2, j, OFF_FREE as int));
}

/// What was made stays made.
pub proof fn lemma_made_at(t1: Seq<Event>, t2: Seq<Event>, g: u64, v: Value, d: int)
    requires
        extends(t1, t2),
        made_at(t1, g, v, d),
    ensures
        made_at(t2, g, v, d),
        t2.take(d) == t1.take(d),
{
    assert(t2.take(t1.len() as int).take(d) =~= t2.take(d));
    let w = node_stores(off_of(g) as int, v).len();
    assert(t2.take(t1.len() as int)[d - w - 1] == t2[d - w - 1]);
    assert(t2.take(t1.len() as int)[d - w - 2] == t2[d - w - 2]);
}

/// A claim that came first stays that.
pub proof fn lemma_claims_after(t1: Seq<Event>, t2: Seq<Event>, d: int)
    requires
        extends(t1, t2),
        claims_after(t1, d),
    ensures
        claims_after(t2, d),
{
    let y = choose|y: int| #[trigger] claims_at(t1, d, y);
    let off = choose|off: u64| off >= SIZE_HEADER && #[trigger] marks(t1[y], off);
    assert(t2.take(t1.len() as int)[y] == t2[y]);
    assert(t2.take(t1.len() as int).take(d) =~= t2.take(d));
    assert(t2.take(t1.len() as int).take(y) =~= t2.take(y));
    assert(marks(t2[y], off));
    assert(claims_at(t2, d, y));
}

/// A thread that takes header words for nodes has done so.
pub proof fn lemma_astray(t1: Seq<Event>, t2: Seq<Event>, c: u64)
    requires
        extends(t1, t2),
        astray(t1, c),
    ensures
        astray(t2, c),
{
    if c >= SIZE_HEADER {
        let g = choose|g: u64| #[trigger]
            value_read(t1, c, g) && g != H_INVALID && off_of(g) < SIZE_HEADER;
        let (slot, j) = choose|slot: u32, j: int| #[trigger] reads_value(t1, c, g, slot, j);
        lemma_known(t1, t2, c, slot);
        assert(t2.take(t1.len() as int)[j] == t2[j]);
        assert(reads_value(t2, c, g, slot, j));
        assert(value_read(t2, c, g));
    }
}

/// A scalar that the thread has just made is spare.
pub proof fn lemma_new_spare(t: Seq<Event>, c: u64, g: u64, v: Value)
    requires
        made(t, g),
        free_found(t) || made_at(t, g, v, t.len() as int),
    ensures
        spare(t, c, g),
{
    reveal(spare);
    if !free_found(t) {
        let d = t.len() as int;
        assert(t.take(d) =~= t);
        lemma_reads_only_idle(t, t);
        lemma_idle_builds(t, t);
        assert(spare_at(t, g, v, d));
    }
}

/// A scalar that the thread has made stays spare while it makes other nodes, or looks around, and
/// when it claims a node then.
pub proof fn lemma_spare(t1: Seq<Event>, t2: Seq<Event>, t3: Seq<Event>, c: u64, g: u64)
    requires
        spare(t1, c, g),
        builds(t1, t2),
        extends(t2, t3),
        t2.len() < t3.len() ==> astray(t3, c) || exists|off: u64|
            off >= SIZE_HEADER && #[trigger] marks(t3[t2.len() as int], off),
    ensures
        spare(t3, c, g),
        t2.len() < t3.len() ==> value_ready(t3, c, g),
{
    reveal(spare);
    lemma_extends_join(t1, t2, t3);
    lemma_made(t1, t3, g);
    if free_found(t1) {
        lemma_free_found(t1, t3);
    } else if astray(t1, c) {
        lemma_astray(t1, t3, c);
    } else if !astray(t3, c) {
        let (v, d) = choose|v: Value, d: int| #[trigger] spare_at(t1, g, v, d);
        lemma_made_at(t1, t3, g, v, d);
        if claims_after(t1, d) {
            lemma_claims_after(t1, t3, d);
        } else {
            assert(t1.take(d) == t3.take(d));
            lemma_builds_join(t1.take(d), t1, t2);
            assert(t3.take(t2.len() as int) == t2);
            if t2.len() < t3.len() {
                assert(claims_at(t3, d, t2.len() as int));
            } else {
                assert(t3 =~= t2);
            }
        }
        assert(spare_at(t3, g, v, d));
        if t2.len() < t3.len() {
            assert(ready_at(t3, c, g, v, d));
        }
    }
}

/// What may be claimed may be claimed later.
pub proof fn lemma_claimable(op: Op, t1: Seq<Event>, t2: Seq<Event>, off: u64)
    requires
        extends(t1, t2),
        claimable(op, t1, off),
    ensures
        claimable(op, t2, off),
{
    if let Op::Keys { c, .. } = op {
        if off != OFF_LOCK && off != seq_off(c) {
            let g = choose|g: u64| #[trigger] scalar_found(t1, c, g) && off == seq_off(off_of(g));
            lemma_scalar_found(t1, t2, c, g);
        }
    }
}

pub proof fn lemma_slot_known(
    t0: Seq<Event>,
    t1: Seq<Event>,
    t2: Seq<Event>,
    t3: Seq<Event>,
    c: u64,
    slot: u32,
)
    requires
        t0.len() <= t1.len(),
        extends(t2, t3),
        slot_known(t1, t2, c, slot),
    ensures
        slot_known(t0, t3, c, slot),
{
    let j = choose|j: int|
        t1.len() <= j < t2.len() && #[trigger] loads(t2, j, c + 8) && slot < lower(seen(t2, j));
    assert(t3.take(t2.len() as int)[j] == t3[j]);
    assert(loads(t3, j, c + 8));
}

/// A value of the root word that is no root yet.
pub open spec fn no_root(root: u64) -> bool {
    root == H_INVALID || !container_kind(kind_of(root))
}

/// With this access a thread has found the root `root`, or has set it.
pub open spec fn gets_root(e: Event, root: u64) -> bool {
    match e {
        Event::Load { off, val } => off == OFF_ROOT && val == root && !no_root(root),
        Event::Store { .. } => false,
        Event::Cas { off, new, done, .. } => off == OFF_ROOT && new == root && done,
    }
}

/// The access, after the accesses `t` of an operation that began after `t0`, is in order.
pub open spec fn proper(op: Op, t0: Seq<Event>, t: Seq<Event>, e: Event) -> bool {
    match e {
        Event::Load { .. } => true,
        Event::Cas { off, current, new, done } => done ==> {
            ||| marks(e, off) && claimable(op, t, off)
            ||| off == OFF_BUMP && current <= new && room_seen(t, e)
            ||| off == OFF_ROOT && no_root(current) && container_kind(kind_of(new))
        },
        Event::Store { off, val } => unguarded(t0, t, off) || exists|m: u64, k: int| #[trigger]
            holds_since(t0, t, m, k) && to_held(op, t, m, k, off, val),
    }
}

/// From `t0` to `t1` every access of the thread was in order, for the operation `op`.
pub open spec fn disciplined(op: Op, t0: Seq<Event>, t1: Seq<Event>) -> bool {
    &&& extends(t0, t1)
    &&& forall|i: int| t0.len() <= i < t1.len() ==> proper(op, t0, t1.take(i), #[trigger] t1[i])
}

/// The access is part of making a node.
pub open spec fn building(t0: Seq<Event>, t: Seq<Event>, e: Event) -> bool {
    ||| alloc_access(e) && (writes(e, OFF_FREE) ==> free_found(t)) && room_seen(t, e)
    ||| e matches Event::Store { off, .. } && open_block(t0, t, off)
}

/// From `t0` to `t1` the thread did nothing but look around and make nodes.
pub open spec fn builds(t0: Seq<Event>, t1: Seq<Event>) -> bool {
    &&& extends(t0, t1)
    &&& forall|i: int| t0.len() <= i < t1.len() ==> building(t0, t1.take(i), #[trigger] t1[i])
}

// Going on.

/// A block stays the thread's own.
pub proof fn lemma_own_block(
    t0: Seq<Event>,
    t1: Seq<Event>,
    t2: Seq<Event>,
    t3: Seq<Event>,
    off: u64,
)
    requires
        t0.len() <= t1.len(),
        extends(t2, t3),
        own_block(t1, t2, off),
    ensures
        own_block(t0, t3, off),
{
    let (b, n) = choose|b: u64, n: u64| #[trigger]
        block_seen(t1, t2, n, b) && b <= off < b + n;
    lemma_block_seen(t0, t1, t2, t3, n, b);
}

pub proof fn lemma_block_seen(
    t0: Seq<Event>,
    t1: Seq<Event>,
    t2: Seq<Event>,
    t3: Seq<Event>,
    n: u64,
    b: u64,
)
    requires
        t0.len() <= t1.len(),
        extends(t2, t3),
        block_seen(t1, t2, n, b),
    ensures
        block_seen(t0, t3, n, b),
{
    let i = choose|i: int|
        t1.len() <= i < t2.len() && (takes(#[trigger] t2[i], b, n) || finds_block(t2, i, b, n));
    assert(t3.take(t2.len() as int)[i] == t3[i]);
    if finds_block(t2, i, b, n) {
        assert(t3.take(t2.len() as int)[i + 1] == t3[i + 1]);
        assert(t3.take(t2.len() as int)[i + 2] == t3[i + 2]);
        assert(finds_block(t3, i, b, n));
    }
}

/// What is in order after `t1` is in order after an earlier `t0`.
proof fn lemma_proper(op: Op, t0: Seq<Event>, t1: Seq<Event>, t: Seq<Event>, e: Event)
    requires
        t0.len() <= t1.len(),
        proper(op, t1, t, e),
    ensures
        proper(op, t0, t, e),
{
    lemma_extends_start(t);
    match e {
        Event::Load { .. } => {},
        Event::Cas { .. } => {},
        Event::Store { off, val } => {
            if open_block(t1, t, off) {
                lemma_open_earlier(t0, t1, t, off);
            } else if !unguarded(t1, t, off) {
                let (m, k) = choose|m: u64, k: int| #[trigger]
                    holds_since(t1, t, m, k) && to_held(op, t, m, k, off, val);
                let o = seq_off(m);
                assert forall|j: int|
                    k < j < t.len() && moves_version(#[trigger] t[j], o) && o
                        >= SIZE_HEADER implies t[j] is Store && open_block(t0, t.take(j), o) by {
                    lemma_open_earlier(t0, t1, t.take(j), o);
                }
                assert(holds_since(t0, t, m, k) && to_held(op, t, m, k, off, val));
            }
        },
    }
}

pub proof fn lemma_disciplined_start(op: Op, t: Seq<Event>)
    ensures
        disciplined(op, t, t),
{
    lemma_extends_start(t);
}

pub proof fn lemma_disciplined_push(op: Op, t0: Seq<Event>, t: Seq<Event>, e: Event)
    requires
        disciplined(op, t0, t),
        proper(op, t0, t, e),
    ensures
        disciplined(op, t0, t.push(e)),
{
    let u = t.push(e);
    assert(u.take(t0.len() as int) =~= t.take(t0.len() as int));
    assert forall|i: int| t0.len() <= i < u.len() implies proper(
        op,
        t0,
        u.take(i),
        #[trigger] u[i],
    ) by {
        if i < t.len() {
            assert(u.take(i) =~= t.take(i));
            assert(proper(op, t0, t.take(i), t[i]));
        } else {
            assert(u.take(i) =~= t);
        }
    }
}

pub proof fn lemma_disciplined_join(op: Op, t0: Seq<Event>, t1: Seq<Event>, t2: Seq<Event>)
    requires
        disciplined(op, t0, t1),
        disciplined(op, t1, t2),
    ensures
        disciplined(op, t0, t2),
{
    lemma_extends_join(t0, t1, t2);
    assert forall|i: int| t0.len() <= i < t2.len() implies proper(
        op,
        t0,
        t2.take(i),
        #[trigger] t2[i],
    ) by {
        if i < t1.len() {
            assert(t2.take(t1.len() as int)[i] == t1[i]);
            assert(t2.take(i) =~= t1.take(i));
            assert(proper(op, t0, t1.take(i), t1[i]));
        } else {
            assert(proper(op, t1, t2.take(i), t2[i]));
            lemma_proper(op, t0, t1, t2.take(i), t2[i]);
        }
    }
}

/// Changing nothing is in order.
pub proof fn lemma_idle_disciplined(op: Op, t0: Seq<Event>, t1: Seq<Event>)
    requires
        idle(t0, t1),
    ensures
        disciplined(op, t0, t1),
{
    assert forall|i: int| t0.len() <= i < t1.len() implies proper(
        op,
        t0,
        t1.take(i),
        #[trigger] t1[i],
    ) by {
        assert(changes_nothing(t1[i]));
    }
}

/// An operation that may not link a node keeps to what one may do that may.
pub proof fn lemma_disciplined_child(c: u64, child: Option<u64>, t0: Seq<Event>, t1: Seq<Event>)
    requires
        disciplined(Op::Keys { c, child: None }, t0, t1),
    ensures
        disciplined(Op::Keys { c, child }, t0, t1),
{
    let less = Op::Keys { c, child: None };
    let more = Op::Keys { c, child };
    assert forall|i: int| t0.len() <= i < t1.len() implies proper(
        more,
        t0,
        t1.take(i),
        #[trigger] t1[i],
    ) by {
        let t = t1.take(i);
        assert(proper(less, t0, t, t1[i]));
        if let Event::Store { off, val } = t1[i] {
            if !unguarded(t0, t, off) {
                let (m, k) = choose|m: u64, k: int| #[trigger]
                    holds_since(t0, t, m, k) && to_held(less, t, m, k, off, val);
                if off != seq_off(m) && m == c && table_word(t, c, None, off, val) && off != c
                    + 24 {
                    let slot = choose|slot: u32| #[trigger]
                        slot_word(t, c, None, slot, off, val);
                    assert(slot_word(t, c, child, slot, off, val));
                }
                assert(holds_since(t0, t, m, k) && to_held(more, t, m, k, off, val));
            }
        }
    }
}

/// A change of a node in one window is in order, if the operation may claim the node, and may make
/// each of the changes.
pub proof fn lemma_window_disciplined(
    op: Op,
    t0: Seq<Event>,
    t1: Seq<Event>,
    n: u64,
    hi: int,
)
    requires
        n < OFFSET_LIMIT,
        at_most_one_window(t0, t1, n, hi),
        claimable(op, t0, seq_off(n)),
        forall|i: int, off: u64, val: u64|
            t0.len() <= i < t1.len() - 1 && t1[i] == (Event::Store { off, val })
                ==> #[trigger] targets(op, t1.take(i), n, off, val),
    ensures
        disciplined(op, t0, t1),
{
    if idle(t0, t1) {
        lemma_idle_disciplined(op, t0, t1);
    } else {
        let k = choose|k: int| window(t0, t1, n, hi, k);
        let u = t1.drop_last();
        assert(t1.take(t0.len() as int) =~= u.take(k).take(t0.len() as int));
        assert(u.take(k).take(t0.len() as int) =~= t0);
        assert forall|i: int| t0.len() <= i < t1.len() implies proper(
            op,
            t0,
            t1.take(i),
            #[trigger] t1[i],
        ) by {
            let t = t1.take(i);
            assert(t.take(t0.len() as int) =~= t1.take(t0.len() as int));
            if i < k {
                assert(u.take(k)[i] == t1[i]);
                assert(changes_nothing(u.take(k)[i]));
            } else if i == k {
                assert(marks(u[k], seq_off(n)));
                lemma_claimable(op, t0, t, seq_off(n));
            } else {
                assert forall|j: int| k < j < t.len() implies !moves_version(
                    #[trigger] t[j],
                    seq_off(n),
                ) by {
                    assert(inside_window(u[j], n, hi));
                }
                assert(t[k] == u[k]);
                assert(holds_since(t0, t, n, k));
                if i < u.len() {
                    assert(inside_window(u[i], n, hi));
                    if let Event::Store { off, val } = t1[i] {
                        assert(targets(op, t1.take(i), n, off, val));
                        assert(to_held(op, t, n, k, off, val));
                    }
                } else if let Event::Store { off, val } = t1[i] {
                    lemma_claimable(op, t0, t, seq_off(n));
                    assert(to_held(op, t, n, k, off, val));
                }
            }
        }
    }
}

// Making nodes.

pub proof fn lemma_builds_join(t0: Seq<Event>, t1: Seq<Event>, t2: Seq<Event>)
    requires
        builds(t0, t1),
        builds(t1, t2),
    ensures
        builds(t0, t2),
{
    lemma_extends_join(t0, t1, t2);
    assert forall|i: int| t0.len() <= i < t2.len() implies building(
        t0,
        t2.take(i),
        #[trigger] t2[i],
    ) by {
        if i < t1.len() {
            assert(t2.take(t1.len() as int)[i] == t1[i]);
            assert(t2.take(i) =~= t1.take(i));
            assert(building(t0, t1.take(i), t1[i]));
        } else {
            let t = t2.take(i);
            lemma_extends_start(t);
            assert(building(t1, t, t2[i]));
            if let Event::Store { off, .. } = t2[i] {
                if open_block(t1, t, off) {
                    lemma_open_earlier(t0, t1, t, off);
                }
            }
        }
    }
}

/// Looking around is no change.
pub proof fn lemma_idle_builds(t0: Seq<Event>, t1: Seq<Event>)
    requires
        idle(t0, t1),
    ensures
        builds(t0, t1),
{
    assert forall|i: int| t0.len() <= i < t1.len() implies building(
        t0,
        t1.take(i),
        #[trigger] t1[i],
    ) by {
        assert(changes_nothing(t1[i]));
    }
}

/// The writes `w` make a node in the block of `n` bytes at `b`: they go upwards, and beyond the
/// header only if the node is a scalar.
pub open spec fn fills(w: Seq<Event>, b: u64, n: u64) -> bool {
    &&& forall|j: int| 0 <= j < w.len() ==> in_block(#[trigger] w[j], b, n)
    &&& forall|j: int| 0 < j < w.len() ==> #[trigger] goes_up(w, j)
    &&& forall|j: int, off: u64|
        0 <= j < w.len() && #[trigger] writes(w[j], off) && off >= b + 32 ==> off >= b + NODE_HDR
            && j > 0 && tags_scalar(w[0], b)
    &&& forall|j: int, off: u64|
        0 <= j < w.len() && #[trigger] writes(w[j], off) ==> (off - b) % 8 == 0
}

/// Write `j` is to a word behind that of the one before.
pub open spec fn goes_up(w: Seq<Event>, j: int) -> bool {
    w[j] matches Event::Store { off, .. } && writes_before(w[j - 1], off)
}

/// Making a node in a block that the thread was given.
pub proof fn lemma_filled_builds(
    t0: Seq<Event>,
    t1: Seq<Event>,
    w: Seq<Event>,
    b: u64,
    n: u64,
)
    requires
        builds(t0, t1),
        block_given(t0, t1, n, b),
        fills(w, b, n),
    ensures
        builds(t0, t1 + w),
{
    let t2 = t1 + w;
    assert(t2.take(t1.len() as int) =~= t1);
    lemma_extends_join(t0, t1, t2);
    assert forall|i: int| t0.len() <= i < t2.len() implies building(
        t0,
        t2.take(i),
        #[trigger] t2[i],
    ) by {
        let t = t2.take(i);
        if i < t1.len() {
            assert(t =~= t1.take(i));
            assert(building(t0, t1.take(i), t1[i]));
        } else {
            let x = i - t1.len();
            assert(in_block(w[x], b, n));
            let off = t2[i]->Store_off;
            assert(writes(w[x], off));
            if exists|k: int| t0.len() <= k && #[trigger] finds_block(t1, k, b, n) {
                let k = choose|k: int| t0.len() <= k && #[trigger] finds_block(t1, k, b, n);
                assert(finds_block(t, k, b, n));
                assert(in_freed(t0, t, off));
            } else {
                let k = t1.len() - 2;
                assert forall|j: int| k + 2 <= j < t.len() implies in_block(
                    #[trigger] t[j],
                    b,
                    n,
                ) by {
                    assert(in_block(w[j - t1.len()], b, n));
                }
                if x > 0 {
                    assert(goes_up(w, x));
                    assert(t.last() == w[x - 1]);
                    assert(t[k + 2] == w[0]);
                }
                assert(run_on(t, k, b, n, off));
                assert(in_run(t0, t, off));
            }
        }
    }
}

/// Making nodes is in order.
pub proof fn lemma_builds_disciplined(op: Op, t0: Seq<Event>, t1: Seq<Event>)
    requires
        builds(t0, t1),
    ensures
        disciplined(op, t0, t1),
{
    assert forall|i: int| t0.len() <= i < t1.len() implies proper(
        op,
        t0,
        t1.take(i),
        #[trigger] t1[i],
    ) by {
        assert(building(t0, t1.take(i), t1[i]));
    }
}

/// A node that is held stays so while the thread makes other nodes.
pub proof fn lemma_held_while_building(
    t0: Seq<Event>,
    t1: Seq<Event>,
    t2: Seq<Event>,
    m: u64,
    k: int,
)
    requires
        holds_since(t0, t1, m, k),
        builds(t1, t2),
    ensures
        holds_since(t0, t2, m, k),
{
    let o = seq_off(m);
    assert(t2.take(t1.len() as int)[k] == t1[k]);
    assert forall|j: int| k < j < t2.len() && moves_version(#[trigger] t2[j], o) && o
        >= SIZE_HEADER implies t2[j] is Store && open_block(t0, t2.take(j), o) by {
        if j < t1.len() {
            assert(t2.take(t1.len() as int)[j] == t1[j]);
            assert(t2.take(j) =~= t1.take(j));
            assert(moves_version(t1[j], o));
        } else {
            let t = t2.take(j);
            assert(building(t1, t, t2[j]));
            if open_block(t1, t, o) {
                lemma_open_earlier(t0, t1, t, o);
            }
        }
    }
}

/// Allocating is making nodes.
pub proof fn lemma_alloc_builds(t0: Seq<Event>, t1: Seq<Event>)
    requires
        extends(t0, t1),
        forall|i: int| t0.len() <= i < t1.len() ==> alloc_access(#[trigger] t1[i]),
        frees_found(t0, t1),
        takes_room(t0, t1),
    ensures
        builds(t0, t1),
{
    assert forall|i: int| t0.len() <= i < t1.len() implies building(
        t0,
        t1.take(i),
        #[trigger] t1[i],
    ) by {
        if writes(t1[i], OFF_FREE) {
            assert(free_found(t1.take(i)));
        }
        assert(room_seen(t1.take(i), t1[i]));
    }
}

/// If the access moves the bound of what is in use, it does so by a multiple of eight, and the
/// thread has read that the region goes so far.
pub open spec fn room_seen(t: Seq<Event>, e: Event) -> bool {
    match e {
        Event::Cas { off, current, new, done } => off == OFF_BUMP && done ==> (new - current) % 8
            == 0 && exists|j: int|
            0 <= j < t.len() && #[trigger] loads(t, j, OFF_CAPACITY as int) && new <= seen(t, j),
        _ => true,
    }
}

/// From `t0` to `t1` the thread took what the region has.
pub open spec fn takes_room(t0: Seq<Event>, t1: Seq<Event>) -> bool {
    forall|i: int| t0.len() <= i < t1.len() ==> room_seen(t1.take(i), #[trigger] t1[i])
}

/// From `t0` to `t1` the thread changed the free list only after it had found a block on it.
pub open spec fn frees_found(t0: Seq<Event>, t1: Seq<Event>) -> bool {
    forall|i: int|
        t0.len() <= i < t1.len() && writes(#[trigger] t1[i], OFF_FREE) ==> free_found(
            t1.take(i),
        )
}

// Working on a node that is held.

/// Whoever holds the node at `m`, claimed at `seq`, after `t1` in good order, is in good
/// order after `t2`.
pub open spec fn finishes(
    op: Op,
    t1: Seq<Event>,
    t2: Seq<Event>,
    m: u64,
    seq: u64,
) -> bool {
    forall|t0: Seq<Event>, k: int|
        #[trigger] holds_since(t0, t1, m, k) && claimed(t1, k) == seq
            && disciplined(op, t0, t1) ==> disciplined(op, t0, t2)
}

/// Reading leaves a node held, and so does writing what the operation may write.
pub proof fn lemma_held_push(op: Op, t0: Seq<Event>, t: Seq<Event>, m: u64, k: int, e: Event)
    requires
        holds_since(t0, t, m, k),
        disciplined(op, t0, t),
        works_on(op, t, e, m),
    ensures
        holds_since(t0, t.push(e), m, k),
        claimed(t.push(e), k) == claimed(t, k),
        disciplined(op, t0, t.push(e)),
{
    let u = t.push(e);
    if let Event::Store { off, val } = e {
        assert(to_held(op, t, m, k, off, val));
    }
    lemma_disciplined_push(op, t0, t, e);
    let o = seq_off(m);
    assert forall|j: int| k < j < u.len() && moves_version(#[trigger] u[j], o) && o
        >= SIZE_HEADER implies u[j] is Store && open_block(t0, u.take(j), o) by {
        if j < t.len() {
            assert(u.take(j) =~= t.take(j));
            assert(moves_version(t[j], o));
        }
    }
}

/// Releasing a node that is held is in order.
pub proof fn lemma_held_release(op: Op, t0: Seq<Event>, t: Seq<Event>, m: u64, k: int)
    requires
        claimable(op, t, seq_off(m)),
        holds_since(t0, t, m, k),
        disciplined(op, t0, t),
    ensures
        disciplined(op, t0, t.push(Event::Store { off: seq_off(m), val: bumped(claimed(t, k)) })),
{
    let val = bumped(claimed(t, k));
    assert(to_held(op, t, m, k, seq_off(m), val));
    lemma_disciplined_push(op, t0, t, Event::Store { off: seq_off(m), val });
}

/// Claiming a node is in order; it is held then.
pub proof fn lemma_held_start(op: Op, t0: Seq<Event>, t: Seq<Event>, m: u64, e: Event)
    requires
        m < OFFSET_LIMIT,
        disciplined(op, t0, t),
        marks(e, seq_off(m)),
        claimable(op, t, seq_off(m)),
    ensures
        disciplined(op, t0, t.push(e)),
        holds_since(t0, t.push(e), m, t.len() as int),
        claimed(t.push(e), t.len() as int) == e->Cas_current,
{
    lemma_disciplined_push(op, t0, t, e);
}

/// Releasing at once.
pub proof fn lemma_finish(op: Op, t: Seq<Event>, m: u64, seq: u64)
    requires
        claimable(op, t, seq_off(m)),
    ensures
        finishes(op, t, t.push(Event::Store { off: seq_off(m), val: bumped(seq) }), m, seq),
{
    assert forall|t0: Seq<Event>, k: int|
        #[trigger] holds_since(t0, t, m, k) && claimed(t, k) == seq
            && disciplined(op, t0, t) implies disciplined(
        op,
        t0,
        t.push(Event::Store { off: seq_off(m), val: bumped(seq) }),
    ) by {
        lemma_held_release(op, t0, t, m, k);
    }
}

/// Reading or writing to the node first.
pub proof fn lemma_finish_push(
    op: Op,
    t: Seq<Event>,
    e: Event,
    t2: Seq<Event>,
    m: u64,
    seq: u64,
)
    requires
        works_on(op, t, e, m),
        finishes(op, t.push(e), t2, m, seq),
    ensures
        finishes(op, t, t2, m, seq),
{
    assert forall|t0: Seq<Event>, k: int|
        #[trigger] holds_since(t0, t, m, k) && claimed(t, k) == seq
            && disciplined(op, t0, t) implies disciplined(op, t0, t2) by {
        lemma_held_push(op, t0, t, m, k, e);
    }
}

/// Making nodes first.
pub proof fn lemma_finish_later(
    op: Op,
    t1: Seq<Event>,
    t2: Seq<Event>,
    t3: Seq<Event>,
    m: u64,
    seq: u64,
)
    requires
        builds(t1, t2),
        finishes(op, t2, t3, m, seq),
    ensures
        finishes(op, t1, t3, m, seq),
{
    lemma_builds_disciplined(op, t1, t2);
    assert forall|t0: Seq<Event>, k: int|
        #[trigger] holds_since(t0, t1, m, k) && claimed(t1, k) == seq
            && disciplined(op, t0, t1) implies disciplined(op, t0, t3) by {
        lemma_held_while_building(t0, t1, t2, m, k);
        assert(t2.take(t1.len() as int)[k] == t1[k]);
        lemma_disciplined_join(op, t0, t1, t2);
    }
}

/// Something else afterwards.
pub proof fn lemma_finish_more(
    op: Op,
    t1: Seq<Event>,
    t2: Seq<Event>,
    t3: Seq<Event>,
    m: u64,
    seq: u64,
)
    requires
        finishes(op, t1, t2, m, seq),
        disciplined(op, t2, t3),
    ensures
        finishes(op, t1, t3, m, seq),
{
    assert forall|t0: Seq<Event>, k: int| #[trigger]
        holds_since(t0, t1, m, k) && claimed(t1, k) == seq && disciplined(
            op,
            t0,
            t1,
        ) implies disciplined(op, t0, t3) by {
        lemma_disciplined_join(op, t0, t2, t3);
    }
}

/// Claiming a node and finishing with it is in order.
pub proof fn lemma_claimed_and_finished(
    op: Op,
    t: Seq<Event>,
    e: Event,
    t2: Seq<Event>,
    m: u64,
    seq: u64,
)
    requires
        m < OFFSET_LIMIT,
        claimable(op, t, seq_off(m)),
        marks(e, seq_off(m)),
        e->Cas_current == seq,
        finishes(op, t.push(e), t2, m, seq),
    ensures
        disciplined(op, t, t2),
{
    lemma_disciplined_start(op, t);
    lemma_held_start(op, t, t, m, e);
}

} // verus!
