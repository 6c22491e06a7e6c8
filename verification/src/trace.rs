//! What the accesses of one thread have in common, whatever the other threads do.
use crate::format::{OFF_LOCK, SIZE_HEADER};
use crate::memory::Event;
use crate::node::NODE_HDR;
use crate::words::lower;
use vstd::prelude::*;

verus! {

/// `t1` goes on from `t0`.
pub open spec fn extends(t0: Seq<Event>, t1: Seq<Event>) -> bool {
    t0.len() <= t1.len() && t1.take(t0.len() as int) == t0
}

pub broadcast proof fn lemma_extends_start(t: Seq<Event>)
    ensures
        #[trigger] extends(t, t),
{
    assert(t.take(t.len() as int) =~= t);
}

pub broadcast proof fn lemma_extends_push(t0: Seq<Event>, t: Seq<Event>, e: Event)
    requires
        extends(t0, t),
    ensures
        #[trigger] extends(t0, t.push(e)),
{
    assert(t.push(e).take(t0.len() as int) =~= t.take(t0.len() as int));
}

pub broadcast proof fn lemma_extends_join(t0: Seq<Event>, t1: Seq<Event>, t2: Seq<Event>)
    requires
        #[trigger] extends(t0, t1),
        #[trigger] extends(t1, t2),
    ensures
        extends(t0, t2),
{
    assert(t2.take(t0.len() as int) =~= t2.take(t1.len() as int).take(t0.len() as int));
}

pub broadcast group group_extends {
    lemma_extends_start,
    lemma_extends_push,
    lemma_extends_join,
}

/// From `t0` to `t1` the thread only read: it neither wrote nor tried to.
pub open spec fn reads_only(t0: Seq<Event>, t1: Seq<Event>) -> bool {
    &&& extends(t0, t1)
    &&& forall|i: int| t0.len() <= i < t1.len() ==> #[trigger] t1[i] is Load
}

/// The access leaves the memory as it was.
pub open spec fn changes_nothing(e: Event) -> bool {
    match e {
        Event::Load { .. } => true,
        Event::Store { .. } => false,
        Event::Cas { done, .. } => !done,
    }
}

/// From `t0` to `t1` the thread changed nothing.
pub open spec fn idle(t0: Seq<Event>, t1: Seq<Event>) -> bool {
    &&& extends(t0, t1)
    &&& forall|i: int| t0.len() <= i < t1.len() ==> changes_nothing(#[trigger] t1[i])
}

/// The word at `off` can be a lock: the version of a node, or the lock of the
/// allocator.
pub open spec fn is_lock_word(off: u64) -> bool {
    off == OFF_LOCK || off >= SIZE_HEADER
}

/// The access sets the lowest bit of the word at `off`, which did not have it set.
pub open spec fn marks(e: Event, off: u64) -> bool {
    e matches Event::Cas { off: o, current, new, done } && o == off && done && current % 2 == 0
        && new == current + 1
}

/// The access claims the lock at `off`.
pub open spec fn claims(e: Event, off: u64) -> bool {
    marks(e, off) && is_lock_word(off)
}

/// From `t0` to `t1` the thread took the lock of the allocator.
pub open spec fn uses_allocator(t0: Seq<Event>, t1: Seq<Event>) -> bool {
    exists|i: int| t0.len() <= i < t1.len() && claims(#[trigger] t1[i], OFF_LOCK)
}

/// Taking the lock is part of anything that goes on from there.
pub proof fn lemma_uses_allocator(t0: Seq<Event>, t1: Seq<Event>, t2: Seq<Event>, t3: Seq<Event>)
    requires
        extends(t0, t1),
        extends(t1, t2),
        extends(t2, t3),
        uses_allocator(t1, t2),
    ensures
        uses_allocator(t0, t3),
{
    let i = choose|i: int| t1.len() <= i < t2.len() && claims(#[trigger] t2[i], OFF_LOCK);
    assert(t3.take(t2.len() as int)[i] == t3[i]);
}

/// The locks that are held after the accesses `t`: claimed and not written since.
pub open spec fn held(t: Seq<Event>) -> Set<u64>
    decreases t.len(),
{
    if t.len() == 0 {
        Set::empty()
    } else {
        let before = held(t.drop_last());
        match t.last() {
            Event::Load { .. } => before,
            Event::Store { off, .. } => before.remove(off),
            Event::Cas { off, .. } => if claims(t.last(), off) {
                before.insert(off)
            } else {
                before
            },
        }
    }
}

/// Every lock held after `t1` was held after `t0`: what the thread claimed in
/// between it has released.
pub open spec fn released(t0: Seq<Event>, t1: Seq<Event>) -> bool {
    forall|o: u64| #[trigger] held(t1).contains(o) ==> held(t0).contains(o)
}

/// As `released`, but for the lock at `but`.
pub open spec fn released_but(t0: Seq<Event>, t1: Seq<Event>, but: u64) -> bool {
    forall|o: u64| #[trigger] held(t1).contains(o) ==> held(t0).contains(o) || o == but
}

/// The effect of one access on the locks that are held.
pub broadcast proof fn lemma_held_push(t: Seq<Event>, e: Event)
    ensures
        #![trigger held(t.push(e))]
        e is Load ==> held(t.push(e)) == held(t),
        e matches Event::Store { off, .. } ==> held(t.push(e)) == held(t).remove(off),
        e matches Event::Cas { off, .. } ==> held(t.push(e)) == if claims(e, off) {
            held(t).insert(off)
        } else {
            held(t)
        },
{
    assert(t.push(e).drop_last() =~= t);
}

pub broadcast proof fn lemma_reads_only_push(t0: Seq<Event>, t: Seq<Event>, off: u64, val: u64)
    requires
        reads_only(t0, t),
    ensures
        #[trigger] reads_only(t0, t.push(Event::Load { off, val })),
{
    assert(t.push(Event::Load { off, val }).take(t0.len() as int) =~= t.take(t0.len() as int));
}

pub broadcast proof fn lemma_reads_only_start(t: Seq<Event>)
    ensures
        #[trigger] reads_only(t, t),
{
    assert(t.take(t.len() as int) =~= t);
}

pub broadcast proof fn lemma_reads_only_join(t0: Seq<Event>, t1: Seq<Event>, t2: Seq<Event>)
    requires
        #[trigger] reads_only(t0, t1),
        #[trigger] reads_only(t1, t2),
    ensures
        reads_only(t0, t2),
{
    assert(t2.take(t0.len() as int) =~= t2.take(t1.len() as int).take(t0.len() as int));
    assert forall|i: int| t0.len() <= i < t2.len() implies #[trigger] t2[i] is Load by {
        if i < t1.len() {
            assert(t2.take(t1.len() as int)[i] == t1[i]);
        }
    }
}

/// Reading neither takes nor releases a lock.
pub broadcast proof fn lemma_reads_only_held(t0: Seq<Event>, t1: Seq<Event>)
    requires
        #[trigger] reads_only(t0, t1),
    ensures
        held(t1) == held(t0),
    decreases t1.len(),
{
    if t1.len() == t0.len() {
        assert(t1 =~= t1.take(t0.len() as int));
    } else {
        let t = t1.drop_last();
        assert(t.take(t0.len() as int) =~= t1.take(t0.len() as int));
        assert forall|i: int| t0.len() <= i < t.len() implies #[trigger] t[i] is Load by {
            assert(t1[i] is Load);
        }
        lemma_reads_only_held(t0, t);
        assert(t1.last() is Load);
    }
}

/// What was only read was not changed.
pub broadcast proof fn lemma_reads_only_idle(t0: Seq<Event>, t1: Seq<Event>)
    requires
        #[trigger] reads_only(t0, t1),
    ensures
        idle(t0, t1),
{
}

pub proof fn lemma_idle_push(t0: Seq<Event>, t: Seq<Event>, e: Event)
    requires
        idle(t0, t),
        changes_nothing(e),
    ensures
        idle(t0, t.push(e)),
{
    assert(t.push(e).take(t0.len() as int) =~= t.take(t0.len() as int));
}

pub broadcast proof fn lemma_idle_join(t0: Seq<Event>, t1: Seq<Event>, t2: Seq<Event>)
    requires
        #[trigger] idle(t0, t1),
        #[trigger] idle(t1, t2),
    ensures
        idle(t0, t2),
{
    assert(t2.take(t0.len() as int) =~= t2.take(t1.len() as int).take(t0.len() as int));
    assert forall|i: int| t0.len() <= i < t2.len() implies changes_nothing(#[trigger] t2[i]) by {
        if i < t1.len() {
            assert(t2.take(t1.len() as int)[i] == t1[i]);
        }
    }
}

/// The access writes between `lo` and `hi`.
pub open spec fn store_within(e: Event, lo: int, hi: int) -> bool {
    e matches Event::Store { off, .. } && lo <= off < hi
}

/// From `t0` to `t1` the thread did nothing but write between `lo` and `hi`.
pub open spec fn stores_within(t0: Seq<Event>, t1: Seq<Event>, lo: int, hi: int) -> bool {
    &&& extends(t0, t1)
    &&& forall|i: int| t0.len() <= i < t1.len() ==> store_within(#[trigger] t1[i], lo, hi)
}

pub broadcast proof fn lemma_stores_within_start(t: Seq<Event>, lo: int, hi: int)
    ensures
        #[trigger] stores_within(t, t, lo, hi),
{
    lemma_extends_start(t);
}

pub broadcast proof fn lemma_stores_within_push(
    t0: Seq<Event>,
    t: Seq<Event>,
    off: u64,
    val: u64,
    lo: int,
    hi: int,
)
    requires
        stores_within(t0, t, lo, hi),
        lo <= off < hi,
    ensures
        #[trigger] stores_within(t0, t.push(Event::Store { off, val }), lo, hi),
{
    lemma_extends_push(t0, t, Event::Store { off, val });
}

pub broadcast group group_stores_within {
    lemma_stores_within_start,
    lemma_stores_within_push,
}

/// The version that a writer leaves behind which found `seq`.
pub open spec fn bumped(seq: u64) -> u64 {
    if seq + 2 > u64::MAX {
        (seq + 2 - 0x1_0000_0000_0000_0000) as u64
    } else {
        (seq + 2) as u64
    }
}

/// Where the version of the node at `n` is.
pub open spec fn seq_off(n: u64) -> u64 {
    (n + 16) as u64
}

/// A writer's access to the node at `n` while it holds the version: it reads,
/// or writes between the node's tag and `hi`, but not the version.
pub open spec fn inside_window(e: Event, n: u64, hi: int) -> bool {
    match e {
        Event::Load { .. } => true,
        Event::Store { off, .. } => n < off < hi && off != seq_off(n),
        Event::Cas { .. } => false,
    }
}

/// From `t0` on the thread changed nothing until it claimed the version of the
/// node at `n`, with access `k`; since then it has only worked on that node, no further
/// than `hi`.
pub open spec fn open_window(t0: Seq<Event>, t1: Seq<Event>, n: u64, hi: int, k: int) -> bool {
    &&& t0.len() <= k < t1.len()
    &&& idle(t0, t1.take(k))
    &&& marks(t1[k], seq_off(n))
    &&& forall|i: int| k < i < t1.len() ==> inside_window(#[trigger] t1[i], n, hi)
}

/// The version that access `k` claimed.
pub open spec fn claimed(t: Seq<Event>, k: int) -> u64 {
    t[k]->Cas_current
}

/// From `t0` to `t1` the thread changed nothing until it claimed the version of
/// the node at `n`, with access `k`; it then worked on that node, no further than `hi`, and
/// with its last access released the version, two up.
pub open spec fn window(t0: Seq<Event>, t1: Seq<Event>, n: u64, hi: int, k: int) -> bool {
    &&& t1.len() > 0
    &&& open_window(t0, t1.drop_last(), n, hi, k)
    &&& t1.last() == (Event::Store { off: seq_off(n), val: bumped(claimed(t1, k)) })
}

/// From `t0` to `t1` the thread changed nothing, or it did in one window on the
/// node at `n`, no further than `hi`.
pub open spec fn at_most_one_window(t0: Seq<Event>, t1: Seq<Event>, n: u64, hi: int) -> bool {
    idle(t0, t1) || exists|k: int| window(t0, t1, n, hi, k)
}

/// With access `j`, since `t0`, the thread has read that the node at `n`, with `unit` bytes for
/// each slot, ends at `hi`.
pub open spec fn end_seen(t0: Seq<Event>, t: Seq<Event>, n: u64, unit: int, hi: int, j: int) -> bool {
    &&& t0.len() <= j < t.len()
    &&& loads(t, j, n + 8)
    &&& hi == n + NODE_HDR + unit * lower(seen(t, j))
}

/// From `t0` to `t1` the thread changed nothing, or it did in one window on the node at `n`, which
/// has `unit` bytes for each slot, and did not go beyond its end.
pub open spec fn stays_inside(t0: Seq<Event>, t1: Seq<Event>, n: u64, unit: int) -> bool {
    idle(t0, t1) || exists|hi: int, j: int| #[trigger]
        end_seen(t0, t1, n, unit, hi, j) && at_most_one_window(t0, t1, n, hi)
}

/// A window that does not go beyond one bound does not go beyond a larger one.
pub proof fn lemma_window_wider(t0: Seq<Event>, t1: Seq<Event>, n: u64, lo: int, hi: int)
    requires
        at_most_one_window(t0, t1, n, lo),
        lo <= hi,
    ensures
        at_most_one_window(t0, t1, n, hi),
{
    if !idle(t0, t1) {
        let k = choose|k: int| window(t0, t1, n, lo, k);
        let u = t1.drop_last();
        assert forall|i: int| k < i < u.len() implies inside_window(#[trigger] u[i], n, hi) by {
            assert(inside_window(u[i], n, lo));
        }
        assert(window(t0, t1, n, hi, k));
    }
}

pub broadcast proof fn lemma_open_window_push(
    t0: Seq<Event>,
    t: Seq<Event>,
    n: u64,
    hi: int,
    k: int,
    e: Event,
)
    requires
        open_window(t0, t, n, hi, k),
        inside_window(e, n, hi),
    ensures
        #[trigger] open_window(t0, t.push(e), n, hi, k),
        claimed(t.push(e), k) == claimed(t, k),
{
    assert(t.push(e).take(k) =~= t.take(k));
}

pub proof fn lemma_open_window_start(t0: Seq<Event>, t: Seq<Event>, n: u64, hi: int)
    requires
        t.len() > 0,
        idle(t0, t.drop_last()),
        marks(t.last(), seq_off(n)),
    ensures
        open_window(t0, t, n, hi, t.len() - 1),
{
    assert(t.take(t.len() - 1) =~= t.drop_last());
}

/// A window before which the thread changed nothing.
pub proof fn lemma_open_window_join(
    t0: Seq<Event>,
    t1: Seq<Event>,
    t2: Seq<Event>,
    n: u64,
    hi: int,
    k: int,
)
    requires
        idle(t0, t1),
        open_window(t1, t2, n, hi, k),
    ensures
        open_window(t0, t2, n, hi, k),
{
    lemma_idle_join(t0, t1, t2.take(k));
}

pub proof fn lemma_window_close(t0: Seq<Event>, t: Seq<Event>, n: u64, hi: int, k: int)
    requires
        open_window(t0, t, n, hi, k),
    ensures
        window(
            t0,
            t.push(Event::Store { off: seq_off(n), val: bumped(claimed(t, k)) }),
            n,
            hi,
            k,
        ),
{
    let e = Event::Store { off: seq_off(n), val: bumped(claimed(t, k)) };
    assert(t.push(e).drop_last() =~= t);
}

/// What was one window after idling is one window.
pub proof fn lemma_window_join(t0: Seq<Event>, t1: Seq<Event>, t2: Seq<Event>, n: u64, hi: int)
    requires
        idle(t0, t1),
    ensures
        at_most_one_window(t1, t2, n, hi) ==> at_most_one_window(t0, t2, n, hi),
{
    if idle(t1, t2) {
        lemma_idle_join(t0, t1, t2);
    } else if at_most_one_window(t1, t2, n, hi) {
        let k = choose|k: int| window(t1, t2, n, hi, k);
        lemma_open_window_join(t0, t1, t2.drop_last(), n, hi, k);
        assert(window(t0, t2, n, hi, k));
    }
}

/// A window goes on from where it began.
pub proof fn lemma_window_extends(t0: Seq<Event>, t1: Seq<Event>, n: u64, hi: int)
    requires
        at_most_one_window(t0, t1, n, hi),
    ensures
        extends(t0, t1),
{
    if !idle(t0, t1) {
        let k = choose|k: int| window(t0, t1, n, hi, k);
        assert(t1.take(t0.len() as int) =~= t1.drop_last().take(k).take(t0.len() as int));
    }
}

/// A window that stays inside of its node, after the thread read how far that goes.
pub proof fn lemma_stays_inside(
    t0: Seq<Event>,
    t1: Seq<Event>,
    t2: Seq<Event>,
    n: u64,
    unit: int,
    hi: int,
    j: int,
    lo: int,
)
    requires
        idle(t0, t1),
        extends(t1, t2),
        end_seen(t0, t1, n, unit, hi, j),
        at_most_one_window(t1, t2, n, lo),
        lo <= hi,
    ensures
        stays_inside(t0, t2, n, unit),
{
    lemma_window_join(t0, t1, t2, n, lo);
    lemma_window_wider(t0, t2, n, lo, hi);
    assert(t2.take(t1.len() as int)[j] == t1[j]);
    assert(end_seen(t0, t2, n, unit, hi, j));
}

/// The value that access `i` read.
pub open spec fn seen(t: Seq<Event>, i: int) -> u64 {
    t[i]->Load_val
}

/// Access `i` is a load of the word at `off`.
pub open spec fn loads(t: Seq<Event>, i: int, off: int) -> bool {
    t[i] matches Event::Load { off: o, .. } && o == off
}

/// From access `k` on the thread only read; the first and the last access found
/// the same even version of the node at `n`.
pub open spec fn stable_from(t: Seq<Event>, n: u64, k: int) -> bool {
    &&& 0 <= k < t.len() - 1
    &&& loads(t, k, seq_off(n) as int)
    &&& loads(t, t.len() - 1, seq_off(n) as int)
    &&& seen(t, k) == seen(t, t.len() - 1)
    &&& seen(t, k) % 2 == 0
    &&& forall|i: int| k <= i < t.len() ==> #[trigger] t[i] is Load
}

pub proof fn lemma_stable(t0: Seq<Event>, t: Seq<Event>, n: u64, seq: u64)
    requires
        seq % 2 == 0,
        t0.len() > 0,
        t0.last() == (Event::Load { off: seq_off(n), val: seq }),
        reads_only(t0, t),
    ensures
        stable_from(t.push(Event::Load { off: seq_off(n), val: seq }), n, t0.len() - 1),
{
    let u = t.push(Event::Load { off: seq_off(n), val: seq });
    assert(t.take(t0.len() as int)[t0.len() - 1] == t0.last());
    assert(u[t0.len() - 1] == t0.last());
}

pub broadcast group group_trace {
    lemma_open_window_push,
    lemma_held_push,
    lemma_reads_only_push,
    lemma_reads_only_start,
    lemma_reads_only_join,
    lemma_reads_only_held,
}

} // verus!
