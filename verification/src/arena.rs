//! The region header and the allocator.
//!
//! The first words of a region are its header; everything behind it is handed
//! out by the allocator, in order, or again once it has been freed.
pub use crate::format::{
    FREE_EMPTY, INIT_FRESH, INIT_READY, INIT_WRITING, LOCK_FREE, LOCK_HELD, OFF_BUMP, OFF_CAPACITY,
    OFF_FREE, OFF_LOCK, OFF_ROOT, OFF_STATE, SIZE_HEADER,
};
use crate::discipline::{free_found, frees_found, room_seen, takes_room, writes};
use crate::memory::{in_words, put, word, Event, Memory};
use crate::record::{agrees, answered};
use crate::trace::{
    claims, extends, held, idle, lemma_extends_push, lemma_extends_start, lemma_idle_push,
    lemma_reads_only_idle, lemma_uses_allocator, loads, reads_only, released, released_but, seen,
    uses_allocator,
};
use crate::words::{halves, join_halves, lemma_halves, lower, lower_half, upper, upper_half};
use vstd::prelude::*;

verus! {

broadcast use crate::trace::group_trace;

/// Region metadata, laid out at the start of the region.
pub struct RegionHeader {
    pub init_state: u32,
    pub backend: u32,
    pub capacity: u64,
    pub bump: u64,
    pub free_top: u64,
    pub root: u64,
    /// The allocator's spinlock.
    pub _pad: u64,
}

/// The header that `ws` starts with.
pub open spec fn region_header(ws: Seq<u64>) -> RegionHeader {
    RegionHeader {
        init_state: lower(word(ws, OFF_STATE as int)),
        backend: upper(word(ws, OFF_STATE as int)),
        capacity: word(ws, OFF_CAPACITY as int),
        bump: word(ws, OFF_BUMP as int),
        free_top: word(ws, OFF_FREE as int),
        root: word(ws, OFF_ROOT as int),
        _pad: word(ws, OFF_LOCK as int),
    }
}

impl RegionHeader {
    /// Reads the header, word by word.
    pub fn from_base<M: Memory>(mem: &mut M) -> (hdr: RegionHeader)
        ensures
            final(mem).words() == old(mem).words(),
            final(mem).patience() == old(mem).patience(),
            reads_only(old(mem).trace(), final(mem).trace()),
            forall|m: Seq<u64>| #[trigger]
                agrees(old(mem).trace(), final(mem).trace(), m) ==> hdr == region_header(m),
            final(mem).undisturbed() ==> old(mem).undisturbed() && hdr == region_header(
                old(mem).words(),
            ),
    {
        let state: u64 = mem.load(OFF_STATE);
        let capacity: u64 = mem.load(OFF_CAPACITY);
        let bump: u64 = mem.load(OFF_BUMP);
        let free_top: u64 = mem.load(OFF_FREE);
        let root: u64 = mem.load(OFF_ROOT);
        let lock: u64 = mem.load(OFF_LOCK);
        proof {
            let k = old(mem).trace().len() as int;
            let t = mem.trace();
            assert forall|m: Seq<u64>| #[trigger] agrees(old(mem).trace(), t, m) implies state
                == word(m, OFF_STATE as int) && capacity == word(m, OFF_CAPACITY as int) && bump
                == word(m, OFF_BUMP as int) && free_top == word(m, OFF_FREE as int) && root == word(
                m,
                OFF_ROOT as int,
            ) && lock == word(m, OFF_LOCK as int) by {
                assert(answered(m, t[k]) && answered(m, t[k + 1]) && answered(m, t[k + 2]));
                assert(answered(m, t[k + 3]) && answered(m, t[k + 4]) && answered(m, t[k + 5]));
            }
        }
        RegionHeader {
            init_state: lower_half(state),
            backend: upper_half(state),
            capacity,
            bump,
            free_top,
            root,
            _pad: lock,
        }
    }
}

/// Rounds a byte count up to an 8-byte boundary.
pub fn align_up(n: u64) -> (r: u64)
    requires
        n + 7 <= u64::MAX,
    ensures
        r == aligned(n as int),
{
    let m: u64 = n + 7;
    assert(m & !7u64 == m - m % 8) by (bit_vector);
    m & !7
}

/// The least multiple of eight that is not below `n`.
pub open spec fn aligned(n: int) -> int {
    (n + 7) / 8 * 8
}

/// The low bit of a version marks an active writer.
pub fn seq_is_odd(seq: u64) -> (r: bool)
    ensures
        r == odd(seq),
{
    assert((seq & 1) != 0 <==> seq % 2 == 1) by (bit_vector);
    (seq & 1) != 0
}

pub open spec fn odd(seq: u64) -> bool {
    seq % 2 == 1
}

/// `ws` with the header of an empty region.
pub open spec fn initialized(ws: Seq<u64>, capacity: u64, backend: u32) -> Seq<u64> {
    let w = put(ws, OFF_STATE as int, halves(INIT_READY, backend));
    let w = put(w, OFF_CAPACITY as int, capacity);
    let w = put(w, OFF_BUMP as int, SIZE_HEADER);
    let w = put(w, OFF_FREE as int, FREE_EMPTY);
    let w = put(w, OFF_ROOT as int, 0);
    put(w, OFF_LOCK as int, LOCK_FREE)
}

/// The access may be part of an initialization: it moves the state of the region from
/// fresh to writing, or from there on.
pub open spec fn starts_properly(e: Event) -> bool {
    match e {
        Event::Load { .. } => true,
        Event::Store { off, val } => off == OFF_STATE ==> lower(val) != INIT_FRESH,
        Event::Cas { off, current, new, .. } => off == OFF_STATE ==> lower(current) == INIT_FRESH
            && lower(new) == INIT_WRITING,
    }
}

/// The thread has become the one that initializes the region.
pub open spec fn initializes(e: Event) -> bool {
    e matches Event::Cas { off, done, .. } && off == OFF_STATE && done
}

/// The accesses of `t1` that go beyond `t0` initialize the region, or leave it alone
/// as another thread does or has done.
pub open spec fn init_seen(t0: Seq<Event>, t1: Seq<Event>, capacity: u64, backend: u32) -> bool {
    &&& extends(t0, t1)
    &&& forall|i: int| t0.len() <= i < t1.len() ==> starts_properly(#[trigger] t1[i])
    &&& idle(t0, t1) || {
        let k = t1.len() - 8;
        &&& k >= t0.len()
        &&& idle(t0, t1.take(k))
        &&& initializes(t1[k])
        &&& t1[k + 1] == (Event::Store { off: OFF_STATE, val: halves(INIT_WRITING, backend) })
        &&& t1[k + 2] == (Event::Store { off: OFF_CAPACITY, val: capacity })
        &&& t1[k + 3] == (Event::Store { off: OFF_BUMP, val: SIZE_HEADER })
        &&& t1[k + 4] == (Event::Store { off: OFF_FREE, val: FREE_EMPTY })
        &&& t1[k + 5] == (Event::Store { off: OFF_ROOT, val: 0 })
        &&& t1[k + 6] == (Event::Store { off: OFF_LOCK, val: LOCK_FREE })
        &&& t1[k + 7] == (Event::Store { off: OFF_STATE, val: halves(INIT_READY, backend) })
    }
}

/// The last access of `t1`, made since `t0`, found the region ready, or made it so.
pub open spec fn ready_seen(t0: Seq<Event>, t1: Seq<Event>) -> bool {
    t0.len() < t1.len() && match t1.last() {
        Event::Load { off, val } => off == OFF_STATE && lower(val) == INIT_READY,
        Event::Store { off, val } => off == OFF_STATE && lower(val) == INIT_READY,
        Event::Cas { .. } => false,
    }
}

/// Initializes the region if it has not been initialized yet; only one thread
/// runs the initialization while the others wait. `false` if the region did not
/// become ready.
pub fn ensure_init<M: Memory>(mem: &mut M, capacity: u64, backend: u32) -> (ready: bool)
    ensures
        final(mem).patience() <= old(mem).patience(),
        released(old(mem).trace(), final(mem).trace()),
        init_seen(old(mem).trace(), final(mem).trace(), capacity, backend),
        ready ==> ready_seen(old(mem).trace(), final(mem).trace()),
        !ready ==> final(mem).patience() == 0,
        !ready ==> idle(old(mem).trace(), final(mem).trace()),
        final(mem).undisturbed() ==> {
            let ws = old(mem).words();
            let state = region_header(ws).init_state;
            &&& old(mem).undisturbed()
            &&& ready == (state == INIT_READY || state == INIT_FRESH && ws.len() > 0)
            &&& final(mem).words() == if state == INIT_FRESH && ws.len() > 0 {
                initialized(ws, capacity, backend)
            } else {
                ws
            }
        },
{
    let ghost t0 = mem.trace();
    proof {
        lemma_reads_only_idle(t0, t0);
    }
    loop
        invariant
            t0 == old(mem).trace(),
            mem.words() == old(mem).words(),
            mem.patience() <= old(mem).patience(),
            released(t0, mem.trace()),
            idle(t0, mem.trace()),
            forall|i: int|
                t0.len() <= i < mem.trace().len() ==> starts_properly(#[trigger] mem.trace()[i]),
            mem.undisturbed() ==> old(mem).undisturbed(),
        decreases mem.patience(),
    {
        let ghost t = mem.trace();
        let w: u64 = mem.load(OFF_STATE);
        proof {
            lemma_idle_push(t0, t, mem.trace().last());
        }
        let state: u32 = lower_half(w);
        if state == INIT_READY {
            return true;
        }
        if state != INIT_WRITING {
            let was: u32 = upper_half(w);
            let fresh: u64 = join_halves(INIT_FRESH, was);
            let writing: u64 = join_halves(INIT_WRITING, was);
            let ghost t = mem.trace();
            let won: bool = mem.cas(OFF_STATE, fresh, writing);
            proof {
                lemma_halves(INIT_FRESH, was);
                lemma_halves(INIT_WRITING, was);
                lemma_halves(INIT_WRITING, backend);
                lemma_halves(INIT_READY, backend);
                assert(mem.trace().take(t.len() as int) =~= t);
            }
            if won {
                mem.store(OFF_STATE, join_halves(INIT_WRITING, backend));
                mem.store(OFF_CAPACITY, capacity);
                mem.store(OFF_BUMP, SIZE_HEADER);
                mem.store(OFF_FREE, FREE_EMPTY);
                mem.store(OFF_ROOT, 0);
                mem.store(OFF_LOCK, LOCK_FREE);
                // The region is ready only now.
                mem.store(OFF_STATE, join_halves(INIT_READY, backend));
                proof {
                    assert(mem.words() =~= initialized(old(mem).words(), capacity, backend));
                    assert(mem.trace().take(t.len() as int) =~= t);
                    assert(mem.trace().take(t0.len() as int) =~= t.take(t0.len() as int));
                }
                return true;
            }
            proof {
                lemma_idle_push(t0, t, mem.trace().last());
            }
        }
        if !mem.pause() {
            return false;
        }
    }
}

/// Taking the allocation spinlock.
pub open spec fn lock_access() -> Event {
    Event::Cas { off: OFF_LOCK, current: LOCK_FREE, new: LOCK_HELD, done: true }
}

/// Acquires the allocation spinlock; `false` if it did not come free.
fn alloc_lock<M: Memory>(mem: &mut M) -> (taken: bool)
    ensures
        final(mem).patience() <= old(mem).patience(),
        !taken ==> final(mem).patience() == 0,
        !taken ==> released(old(mem).trace(), final(mem).trace()),
        released_but(old(mem).trace(), final(mem).trace(), OFF_LOCK),
        extends(old(mem).trace(), final(mem).trace()),
        forall|i: int|
            old(mem).trace().len() <= i < final(mem).trace().len() ==> alloc_access(
                #[trigger] final(mem).trace()[i],
            ),
        taken ==> uses_allocator(old(mem).trace(), final(mem).trace()),
        taken ==> final(mem).trace().last() == lock_access() && idle(
            old(mem).trace(),
            final(mem).trace().drop_last(),
        ),
        !taken ==> idle(old(mem).trace(), final(mem).trace()),
        !taken ==> final(mem).words() == old(mem).words(),
        taken ==> final(mem).words() == put(old(mem).words(), OFF_LOCK as int, LOCK_HELD),
        final(mem).undisturbed() ==> old(mem).undisturbed() && taken == lock_free(
            old(mem).words(),
        ),
{
    let ghost t0 = mem.trace();
    proof {
        lemma_reads_only_idle(t0, t0);
    }
    loop
        invariant
            t0 == old(mem).trace(),
            mem.words() == old(mem).words(),
            mem.patience() <= old(mem).patience(),
            released(t0, mem.trace()),
            idle(t0, mem.trace()),
            forall|i: int|
                t0.len() <= i < mem.trace().len() ==> alloc_access(#[trigger] mem.trace()[i]),
            mem.undisturbed() ==> old(mem).undisturbed(),
        decreases mem.patience(),
    {
        let ghost t = mem.trace();
        let taken: bool = mem.cas(OFF_LOCK, LOCK_FREE, LOCK_HELD);
        assert(mem.trace().take(t0.len() as int) =~= t.take(t0.len() as int));
        if taken {
            assert(claims(mem.trace()[mem.trace().len() - 1], OFF_LOCK));
            assert(mem.trace().drop_last() =~= t);
            return true;
        }
        proof {
            lemma_idle_push(t0, t, mem.trace().last());
        }
        if !mem.pause() {
            return false;
        }
    }
}

/// The allocation spinlock exists and nobody holds it.
pub open spec fn lock_free(ws: Seq<u64>) -> bool {
    in_words(ws, OFF_LOCK as int) && region_header(ws)._pad == LOCK_FREE
}

/// Releases the allocation spinlock.
fn alloc_unlock<M: Memory>(mem: &mut M)
    ensures
        final(mem).patience() == old(mem).patience(),
        held(final(mem).trace()) == held(old(mem).trace()).remove(OFF_LOCK),
        final(mem).trace() == old(mem).trace().push(
            Event::Store { off: OFF_LOCK, val: LOCK_FREE },
        ),
        final(mem).words() == put(old(mem).words(), OFF_LOCK as int, LOCK_FREE),
        final(mem).undisturbed() == old(mem).undisturbed(),
{
    mem.store(OFF_LOCK, LOCK_FREE);
}

/// What leads on in the free list: where a block is, or that there are no more.
pub open spec fn is_link(next: u64) -> bool {
    next == FREE_EMPTY || next % 8 == 0 && next <= FREE_EMPTY - 8
}

/// The first word of a freed block that has no second one, where `next` was freed before: the
/// link, marked in its lowest bits, which are zero in every offset.
pub open spec fn marked(next: u64) -> u64 {
    (next - next % 8 + 1) as u64
}

/// A freed block with this first word has one word.
pub open spec fn is_marked(first: u64) -> bool {
    first % 8 == 1
}

/// The link in the first word of a freed block.
pub open spec fn link_in(first: u64) -> u64 {
    if first == marked(FREE_EMPTY) {
        FREE_EMPTY
    } else if is_marked(first) {
        (first - 1) as u64
    } else {
        first
    }
}

/// How many bytes the freed block at `top` has: one word if its first word says so, else as many
/// as its second word says.
pub open spec fn freed_size(ws: Seq<u64>, top: u64) -> u64 {
    if is_marked(word(ws, top as int)) {
        8
    } else {
        word(ws, top + 8)
    }
}

/// The block at `top`, which was freed last, has at least `n` bytes.
pub open spec fn suits(ws: Seq<u64>, top: u64, n: u64) -> bool {
    top <= FREE_EMPTY - 8 && n <= freed_size(ws, top)
}

/// The mark leaves the link as it was.
pub proof fn lemma_marked(next: u64)
    requires
        is_link(next),
    ensures
        is_marked(marked(next)),
        link_in(marked(next)) == next,
        !is_marked(next),
        link_in(next) == next,
{
}

/// Marks the link of a freed block of one word.
fn mark(next: u64) -> (first: u64)
    ensures
        first == marked(next),
{
    next - next % 8 + 1
}

/// Takes the link out of the first word of a freed block.
fn link_of(first: u64) -> (next: u64)
    ensures
        next == link_in(first),
{
    if first == FREE_EMPTY - 6 {
        FREE_EMPTY
    } else if first % 8 == 1 {
        first - 1
    } else {
        first
    }
}

/// What allocating `n` bytes gives: the block freed last, if there is one and it is large
/// enough (its first word leads to the one freed before), else the next `n` bytes, else
/// nothing.
pub open spec fn allocated(ws: Seq<u64>, n: u64) -> (Option<u64>, Seq<u64>) {
    let hdr = region_header(ws);
    if !lock_free(ws) {
        (None, ws)
    } else if suits(put(ws, OFF_LOCK as int, LOCK_HELD), hdr.free_top, n) {
        let first = word(put(ws, OFF_LOCK as int, LOCK_HELD), hdr.free_top as int);
        (Some(hdr.free_top), put(ws, OFF_FREE as int, link_in(first)))
    } else if hdr.bump + n <= hdr.capacity {
        (Some(hdr.bump), put(ws, OFF_BUMP as int, (hdr.bump + n) as u64))
    } else {
        (None, ws)
    }
}

/// With this access a thread has taken the next `n` bytes, from `off` on.
pub open spec fn takes(e: Event, off: u64, n: u64) -> bool {
    e matches Event::Cas { off: o, current, new, done } && o == OFF_BUMP && current == off && new
        == off + n && done
}

/// The access may be part of an allocation: it takes or releases the lock, takes a block
/// off the free list, or moves the bound of what is in use up.
pub open spec fn alloc_access(e: Event) -> bool {
    match e {
        Event::Load { .. } => true,
        Event::Store { off, .. } => off == OFF_FREE || off == OFF_LOCK,
        Event::Cas { off, current, new, done } => done ==> off == OFF_LOCK && current == LOCK_FREE
            && new == LOCK_HELD || off == OFF_BUMP && current <= new,
    }
}

/// The access moves the bound of what is in use.
pub open spec fn moves_bound(e: Event) -> bool {
    e matches Event::Cas { off, done, .. } && off == OFF_BUMP && done
}

/// The access leaves the bound of what is in use where it is, or moves it up.
pub open spec fn bumps_properly(e: Event) -> bool {
    match e {
        Event::Load { .. } => true,
        Event::Store { off, .. } => off != OFF_BUMP,
        Event::Cas { off, current, new, done } => done && off == OFF_BUMP ==> current <= new,
    }
}

/// With the accesses from `i` on the thread of `t` found the block at `off` on top of the free
/// list, and that it has at least `n` bytes.
pub open spec fn finds_block(t: Seq<Event>, i: int, off: u64, n: u64) -> bool {
    &&& i + 2 < t.len()
    &&& off <= FREE_EMPTY - 8
    &&& t[i] == (Event::Load { off: OFF_FREE, val: off })
    &&& t[i + 1] matches Event::Load { off: o, val } && o == off && (is_marked(val) && n <= 8 || (
    t[i + 2] matches Event::Load { off: p, val: size } && p == off + 8 && n <= size))
}

/// Among the accesses of `t1` that go beyond `t0` are those that got the block of `n` bytes at
/// `off`: they took the next `n` bytes, or found the block on the free list.
pub open spec fn block_seen(t0: Seq<Event>, t1: Seq<Event>, n: u64, off: u64) -> bool {
    exists|i: int|
        t0.len() <= i < t1.len() && (takes(#[trigger] t1[i], off, n) || finds_block(t1, i, off, n))
}

/// The thread, which began after `t0`, ended by taking the next `n` bytes, from `off` on, and
/// releasing the lock of the allocator; or it found the block on the free list.
pub open spec fn block_given(t0: Seq<Event>, t: Seq<Event>, n: u64, off: u64) -> bool {
    ||| t0.len() + 2 <= t.len() && takes(t[t.len() - 2], off, n) && t.last() == (Event::Store {
        off: OFF_LOCK,
        val: LOCK_FREE,
    })
    ||| exists|i: int| t0.len() <= i && #[trigger] finds_block(t, i, off, n)
}

/// With the accesses `i` and `j` of `t` the thread found that less than `n` bytes are left.
pub open spec fn lacks_room(t: Seq<Event>, i: int, j: int, n: u64) -> bool {
    &&& loads(t, i, OFF_CAPACITY as int)
    &&& loads(t, j, OFF_BUMP as int)
    &&& seen(t, j) + n > seen(t, i)
}

/// Since `t0` the thread, which held the lock of the allocator, found that less than `n` bytes are
/// left.
pub open spec fn full_seen(t0: Seq<Event>, t1: Seq<Event>, n: u64) -> bool {
    exists|i: int, j: int| t0.len() <= i < j < t1.len() && #[trigger] lacks_room(t1, i, j, n)
}

/// What was seen by then has been seen since earlier.
pub proof fn lemma_full_seen(
    t0: Seq<Event>,
    t1: Seq<Event>,
    t2: Seq<Event>,
    t3: Seq<Event>,
    n: u64,
)
    requires
        t0.len() <= t1.len(),
        extends(t2, t3),
        full_seen(t1, t2, n),
    ensures
        full_seen(t0, t3, n),
{
    let (i, j) = choose|i: int, j: int|
        t1.len() <= i < j < t2.len() && #[trigger] lacks_room(t2, i, j, n);
    assert(t3.take(t2.len() as int)[i] == t3[i]);
    assert(t3.take(t2.len() as int)[j] == t3[j]);
    assert(lacks_room(t3, i, j, n));
}

/// Allocates `n` bytes: reuses the block freed last if it is large enough, otherwise takes
/// the next `n` bytes. `None` if the region is full or its lock did not come free.
pub fn alloc_aligned<M: Memory>(mem: &mut M, n: u64) -> (off: Option<u64>)
    ensures
        final(mem).patience() <= old(mem).patience(),
        released(old(mem).trace(), final(mem).trace()),
        extends(old(mem).trace(), final(mem).trace()),
        forall|i: int|
            old(mem).trace().len() <= i < final(mem).trace().len() ==> alloc_access(
                #[trigger] final(mem).trace()[i],
            ),
        frees_found(old(mem).trace(), final(mem).trace()),
        n % 8 == 0 ==> takes_room(old(mem).trace(), final(mem).trace()),
        off matches Some(b) ==> block_seen(old(mem).trace(), final(mem).trace(), n, b)
            && block_given(old(mem).trace(), final(mem).trace(), n, b),
        off is None ==> final(mem).patience() == 0 || full_seen(
            old(mem).trace(),
            final(mem).trace(),
            n,
        ),
        off is Some ==> uses_allocator(old(mem).trace(), final(mem).trace()),
        idle(old(mem).trace(), final(mem).trace()) || uses_allocator(
            old(mem).trace(),
            final(mem).trace(),
        ),
        final(mem).undisturbed() ==> old(mem).undisturbed() && (off, final(mem).words())
            == allocated(old(mem).words(), n),
{
    if !alloc_lock(mem) {
        return None;
    }
    let ghost t1 = mem.trace();
    let result: Option<u64> = alloc_held(mem, n);
    let ghost t2 = mem.trace();
    alloc_unlock(mem);
    proof {
        let t3 = mem.trace();
        let t0 = old(mem).trace();
        assert(t3.take(t0.len() as int) =~= t2.take(t1.len() as int).take(t0.len() as int));
        lemma_extends_start(t0);
        lemma_extends_push(t1, t2, t3.last());
        lemma_uses_allocator(t0, t0, t1, t3);
        assert forall|i: int| t0.len() <= i < t3.len() implies alloc_access(
            #[trigger] t3[i],
        ) by {
            if i < t1.len() {
                assert(t3[i] == t2.take(t1.len() as int)[i]);
            } else if i < t2.len() {
                assert(t3[i] == t2[i]);
            }
        }
        assert forall|i: int| n % 8 == 0 && t0.len() <= i < t3.len() implies room_seen(
            t3.take(i),
            #[trigger] t3[i],
        ) by {
            if i < t1.len() {
                assert(t3[i] == t2.take(t1.len() as int)[i]);
                assert(t1.drop_last()[i] == t1[i] || i == t1.len() - 1);
            } else if i < t2.len() {
                assert(t3[i] == t2[i]);
                assert(t3.take(i) =~= t2.take(i));
            }
        }
        assert forall|i: int| t0.len() <= i < t3.len() && writes(
            #[trigger] t3[i],
            OFF_FREE,
        ) implies free_found(t3.take(i)) by {
            if i < t1.len() {
                assert(t3[i] == t2.take(t1.len() as int)[i]);
                assert(t1.drop_last()[i] == t1[i] || i == t1.len() - 1);
            } else if i < t2.len() {
                assert(t3[i] == t2[i]);
                assert(t3.take(i) =~= t2.take(i));
            }
        }
        if result is Some {
            let b = result.unwrap();
            let i = choose|i: int|
                t1.len() <= i < t2.len() && (takes(#[trigger] t2[i], b, n) || finds_block(
                    t2,
                    i,
                    b,
                    n,
                ));
            assert(t3[i] == t2[i]);
            assert(finds_block(t2, i, b, n) ==> finds_block(t3, i, b, n));
            if !takes(t2.last(), b, n) {
                let j = choose|j: int| t1.len() <= j && #[trigger] finds_block(t2, j, b, n);
                assert(finds_block(t3, j, b, n));
            }
        } else if full_seen(t1, t2, n) {
            assert(t3.take(t2.len() as int) =~= t2);
            lemma_full_seen(t0, t1, t2, t3, n);
        }
    }
    assert(mem.undisturbed() ==> mem.words() =~= allocated(old(mem).words(), n).1);
    result
}

/// The allocation itself, under the lock.
fn alloc_held<M: Memory>(mem: &mut M, n: u64) -> (off: Option<u64>)
    ensures
        final(mem).patience() <= old(mem).patience(),
        released(old(mem).trace(), final(mem).trace()),
        extends(old(mem).trace(), final(mem).trace()),
        forall|i: int|
            old(mem).trace().len() <= i < final(mem).trace().len() ==> alloc_access(
                #[trigger] final(mem).trace()[i],
            ),
        frees_found(old(mem).trace(), final(mem).trace()),
        n % 8 == 0 ==> takes_room(old(mem).trace(), final(mem).trace()),
        off matches Some(b) ==> block_seen(old(mem).trace(), final(mem).trace(), n, b) && (takes(
            final(mem).trace().last(),
            b,
            n,
        ) || exists|i: int|
            old(mem).trace().len() <= i && #[trigger] finds_block(final(mem).trace(), i, b, n)),
        off is None ==> final(mem).patience() == 0 || full_seen(
            old(mem).trace(),
            final(mem).trace(),
            n,
        ),
        final(mem).undisturbed() ==> {
            let ws = old(mem).words();
            let hdr = region_header(ws);
            &&& old(mem).undisturbed()
            &&& suits(ws, hdr.free_top, n) ==> off == Some(hdr.free_top) && final(mem).words()
                == put(ws, OFF_FREE as int, link_in(word(ws, hdr.free_top as int)))
            &&& !suits(ws, hdr.free_top, n) && in_words(ws, OFF_BUMP as int) ==> if hdr.bump + n
                <= hdr.capacity {
                off == Some(hdr.bump) && final(mem).words() == put(
                    ws,
                    OFF_BUMP as int,
                    (hdr.bump + n) as u64,
                )
            } else {
                off is None && final(mem).words() == ws
            }
        },
{
    let ghost t0 = mem.trace();
    // Reuse the most recently freed block, if it is large enough.
    let top: u64 = mem.load(OFF_FREE);
    if top <= FREE_EMPTY - 8 {
        let first: u64 = mem.load(top);
        let size: u64 = if first % 8 == 1 {
            8
        } else {
            mem.load(top + 8)
        };
        if n <= size {
            mem.store(OFF_FREE, link_of(first));
            proof {
                let t = mem.trace();
                assert(t.take(t0.len() as int) =~= t0);
                assert(t[t0.len() as int] == (Event::Load { off: OFF_FREE, val: top }));
                assert(t[t0.len() as int + 1] == (Event::Load { off: top, val: first }));
                assert(!is_marked(first) ==> t[t0.len() as int + 2] == (Event::Load {
                    off: (top + 8) as u64,
                    val: size,
                }));
                assert(finds_block(t, t0.len() as int, top, n));
                let u = t.drop_last();
                assert(t.take(t.len() - 1) =~= u);
                assert(loads(u, t0.len() as int, OFF_FREE as int));
                assert(free_found(u));
            }
            return Some(top);
        }
    }
    let ghost c = mem.trace().len() as int;
    let cap: u64 = mem.load(OFF_CAPACITY);
    assert(mem.trace().take(t0.len() as int) =~= t0);
    loop
        invariant
            t0 == old(mem).trace(),
            extends(t0, mem.trace()),
            forall|i: int|
                t0.len() <= i < mem.trace().len() ==> alloc_access(#[trigger] mem.trace()[i]),
            forall|i: int|
                t0.len() <= i < mem.trace().len() ==> !writes(#[trigger] mem.trace()[i], OFF_FREE),
            forall|i: int|
                t0.len() <= i < mem.trace().len() ==> !moves_bound(#[trigger] mem.trace()[i]),
            mem.words() == old(mem).words(),
            mem.patience() <= old(mem).patience(),
            released(old(mem).trace(), mem.trace()),
            mem.undisturbed() ==> old(mem).undisturbed() && !suits(
                old(mem).words(),
                region_header(old(mem).words()).free_top,
                n,
            ) && cap == region_header(old(mem).words()).capacity,
            t0.len() <= c < mem.trace().len(),
            mem.trace()[c] == (Event::Load { off: OFF_CAPACITY, val: cap }),
        decreases mem.patience(),
    {
        let ghost t = mem.trace();
        let cur: u64 = mem.load(OFF_BUMP);
        assert(mem.trace().take(t0.len() as int) =~= t.take(t0.len() as int));
        let ghost b = mem.trace().len() - 1;
        match cur.checked_add(n) {
            Some(end) => {
                if end > cap {
                    assert(lacks_room(mem.trace(), c, b, n));
                    return None;
                }
                let done: bool = mem.cas(OFF_BUMP, cur, end);
                assert(mem.trace().take(t0.len() as int) =~= t.take(t0.len() as int));
                if done {
                    let ghost u = mem.trace();
                    assert(takes(u[u.len() - 1], cur, n));
                    assert(n % 8 == 0 ==> takes_room(t0, u)) by {
                        assert(loads(u.take(u.len() - 1), c, OFF_CAPACITY as int));
                    }
                    return Some(cur);
                }
            },
            None => {
                assert(lacks_room(mem.trace(), c, b, n));
                return None;
            },
        }
        if !mem.pause() {
            return None;
        }
    }
}

/// `ws` with the block of `n` bytes at `off` on top of the free list: its first word leads to the
/// one freed before, its second says how many bytes it has. A block of one word is marked in the
/// first.
pub open spec fn deallocated(ws: Seq<u64>, off: u64, n: u64) -> Seq<u64> {
    if keepable(off, n) {
        let top = region_header(ws).free_top;
        let w = if n < 16 {
            put(ws, off as int, marked(top))
        } else {
            put(put(ws, off as int, top), off + 8, n)
        };
        let w = put(w, OFF_FREE as int, off);
        put(w, OFF_LOCK as int, LOCK_FREE)
    } else {
        ws
    }
}

/// The block can be kept on the free list.
pub open spec fn keepable(off: u64, n: u64) -> bool {
    n >= 8 && off % 8 == 0 && off <= FREE_EMPTY - 8
}

/// The accesses that put the block of `n` bytes at `off` onto the free list, on top of `top`.
pub open spec fn free_accesses(off: u64, n: u64, top: u64) -> Seq<Event> {
    let links = if n < 16 {
        seq![Event::Store { off, val: marked(top) }]
    } else {
        seq![
            Event::Store { off, val: top },
            Event::Store { off: (off + 8) as u64, val: n },
        ]
    };
    seq![lock_access(), Event::Load { off: OFF_FREE, val: top }] + links + seq![
        Event::Store { off: OFF_FREE, val: off },
        Event::Store { off: OFF_LOCK, val: LOCK_FREE },
    ]
}

/// From `t0` to `t1` the thread waited for the lock and put the block of `n` bytes at `off` onto
/// the free list.
pub open spec fn freed_seen(t0: Seq<Event>, t1: Seq<Event>, off: u64, n: u64) -> bool {
    let k = if n < 16 {
        5int
    } else {
        6
    };
    exists|top: u64|
        idle(t0, t1.take(t1.len() - k)) && t1.skip(t1.len() - k) == #[trigger] free_accesses(
            off,
            n,
            top,
        )
}

/// Puts the block of `n` bytes at `off` onto the free list; `false` if the lock did not come free.
/// (Nothing in the region says how long a block is, so the caller does.)
pub fn dealloc<M: Memory>(mem: &mut M, off: u64, n: u64) -> (freed: bool)
    ensures
        final(mem).patience() <= old(mem).patience(),
        released(old(mem).trace(), final(mem).trace()),
        !keepable(off, n) ==> freed && *final(mem) == *old(mem),
        freed && keepable(off, n) ==> freed_seen(old(mem).trace(), final(mem).trace(), off, n),
        !freed ==> final(mem).patience() == 0,
        !freed ==> idle(old(mem).trace(), final(mem).trace()),
        final(mem).undisturbed() ==> {
            let ws = old(mem).words();
            &&& old(mem).undisturbed()
            &&& freed == (!keepable(off, n) || lock_free(ws))
            &&& final(mem).words() == if freed {
                deallocated(ws, off, n)
            } else {
                ws
            }
        },
{
    if n < 8 || off % 8 != 0 || off > FREE_EMPTY - 8 {
        return true;
    }
    if !alloc_lock(mem) {
        return false;
    }
    let ghost t = mem.trace();
    let top: u64 = mem.load(OFF_FREE);
    if n < 16 {
        mem.store(off, mark(top));
    } else {
        mem.store(off, top);
        mem.store(off + 8, n);
    }
    mem.store(OFF_FREE, off);
    alloc_unlock(mem);
    proof {
        let t1 = mem.trace();
        let k = if n < 16 {
            5int
        } else {
            6
        };
        assert(t1.take(t1.len() - k) =~= t.drop_last());
        assert(t1.skip(t1.len() - k) =~= free_accesses(off, n, top));
    }
    assert(mem.undisturbed() ==> mem.words() =~= deallocated(old(mem).words(), off, n));
    true
}

} // verus!
