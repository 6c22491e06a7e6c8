//! A region that several threads initialize and allocate from.
use crate::arena::{
    bumps_properly, init_seen, initialized, initializes, ready_seen, starts_properly, takes,
    FREE_EMPTY, INIT_FRESH, INIT_READY, INIT_WRITING, LOCK_FREE, OFF_BUMP, OFF_CAPACITY, OFF_FREE,
    OFF_LOCK, OFF_ROOT, OFF_STATE, SIZE_HEADER,
};
use crate::discipline::{
    disciplined, gets_root, holds_since, lemma_open_block, lemma_own_block, no_root, open_block,
    own_block, proper, to_held, unguarded, Op,
};
use crate::history::{
    after, coherent, effects, lemma_after_len, lemma_effect, lemma_place, lemma_thread_prefix,
    of_thread, place, Step,
};
use crate::insertion::lemma_turn;
use crate::memory::{in_words, put, word, Event};
use crate::trace::{changes_nothing, idle, marks};
use crate::words::{halves, lemma_halves, lower};
use vstd::prelude::*;

verus! {

/// What a prefix of a history inherits.
proof fn lemma_coherent_prefix(ws: Seq<u64>, h: Seq<Step>, i: int)
    requires
        coherent(ws, h),
        0 <= i <= h.len(),
    ensures
        coherent(ws, h.take(i)),
    decreases h.len(),
{
    if i < h.len() {
        lemma_coherent_prefix(ws, h.drop_last(), i);
        assert(h.drop_last().take(i) =~= h.take(i));
    } else {
        assert(h.take(i) =~= h);
    }
}

/// A region that is no longer fresh stays so.
proof fn lemma_not_fresh(ws: Seq<u64>, h: Seq<Step>, i: int, j: int)
    requires
        coherent(ws, h),
        in_words(ws, OFF_STATE as int),
        forall|k: int| 0 <= k < h.len() ==> starts_properly((#[trigger] h[k]).event),
        0 <= i < j <= h.len(),
        initializes(h[i].event),
    ensures
        lower(word(after(ws, h.take(j)), OFF_STATE as int)) != INIT_FRESH,
    decreases j - i,
{
    let g = h.take(j - 1);
    assert(h.take(j).drop_last() =~= g);
    assert(starts_properly(h[j - 1].event));
    lemma_after_len(ws, g);
    lemma_effect(after(ws, g), h[j - 1].event, OFF_STATE as int);
    if i < j - 1 {
        lemma_not_fresh(ws, h, i, j - 1);
    }
}

/// Only one thread runs the initialization: no two accesses move the region on from
/// fresh.
pub proof fn law_one_initializer(ws: Seq<u64>, h: Seq<Step>, i: int, j: int)
    requires
        coherent(ws, h),
        in_words(ws, OFF_STATE as int),
        forall|k: int| 0 <= k < h.len() ==> starts_properly((#[trigger] h[k]).event),
        0 <= i < h.len(),
        0 <= j < h.len(),
        initializes(h[i].event),
        initializes(h[j].event),
    ensures
        i == j,
{
    if i < j {
        lemma_not_fresh(ws, h, i, j);
        lemma_step(ws, h, j);
        assert(starts_properly(h[j].event));
    } else if j < i {
        lemma_not_fresh(ws, h, j, i);
        lemma_step(ws, h, i);
        assert(starts_properly(h[i].event));
    }
}

/// The threads each make one call that initializes the region, thread `p` with the capacity and the
/// backend `args(p)`.
pub open spec fn all_start(ws: Seq<u64>, h: Seq<Step>, args: spec_fn(int) -> (u64, u32)) -> bool {
    &&& coherent(ws, h)
    &&& in_words(ws, OFF_LOCK as int)
    &&& lower(word(ws, OFF_STATE as int)) == INIT_FRESH
    &&& forall|p: int|
        init_seen(Seq::empty(), #[trigger] of_thread(h, p), args(p).0, args(p).1)
}

/// The region is what the call of thread `p` makes of it, and was that already when any other
/// thread found that it is ready.
pub open spec fn started_by(
    ws: Seq<u64>,
    h: Seq<Step>,
    args: spec_fn(int) -> (u64, u32),
    p: int,
) -> bool {
    let made = initialized(ws, args(p).0, args(p).1);
    &&& of_thread(h, p).len() > 0
    &&& after(ws, h) == made
    &&& forall|q: int|
        q != p && ready_seen(Seq::empty(), #[trigger] of_thread(h, q)) ==> after(
            ws,
            h.take(place(h, q, of_thread(h, q).len() - 1)),
        ) == made
}

/// Threads that open a fresh region at the same time: whatever the order in which their accesses
/// follow each other, once one of them has been told that the region is ready, its header is
/// complete and comes from one of the calls alone, and nothing behind the header has changed. The
/// region was that already when any thread was told so.
#[verifier::rlimit(40)]
pub proof fn law_one_start(ws: Seq<u64>, h: Seq<Step>, args: spec_fn(int) -> (u64, u32), r: int)
    requires
        all_start(ws, h, args),
        ready_seen(Seq::empty(), of_thread(h, r)),
    ensures
        exists|p: int| #[trigger] started_by(ws, h, args, p),
{
    let none = Seq::<Event>::empty();
    assert(init_seen(none, of_thread(h, r), args(r).0, args(r).1));
    if forall|q: int| idle(none, #[trigger] of_thread(h, q)) {
        // Then nothing has changed.
        let x = of_thread(h, r).len() - 1;
        lemma_place(ws, h, r, x);
        let g = h.take(place(h, r, x));
        assert forall|q: int| q != r implies idle(none, #[trigger] of_thread(h, q)) by {}
        lemma_others_idle(ws, h, r, place(h, r, x));
        lemma_thread_prefix(h, r, place(h, r, x));
        assert forall|i: int| 0 <= i < of_thread(g, r).len() implies changes_nothing(
            #[trigger] of_thread(g, r)[i],
        ) by {
            assert(of_thread(g, r)[i] == of_thread(h, r)[i]);
        }
        lemma_idle_effects(ws, of_thread(g, r));
        assert(changes_nothing(of_thread(h, r)[x]));
        assert(false);
    }
    let p = choose|p: int| !idle(none, #[trigger] of_thread(h, p));
    let t = of_thread(h, p);
    assert(init_seen(none, t, args(p).0, args(p).1));
    lemma_others_wait(ws, h, args, p);
    let made = initialized(ws, args(p).0, args(p).1);
    assert(h.take(h.len() as int) =~= h);
    lemma_others_idle(ws, h, p, h.len() as int);
    lemma_start(ws, t, args(p).0, args(p).1, t.len() as int);
    assert(t.take(t.len() as int) =~= t);
    assert forall|q: int| q != p && ready_seen(none, #[trigger] of_thread(h, q)) implies after(
        ws,
        h.take(place(h, q, of_thread(h, q).len() - 1)),
    ) == made by {
        let x = of_thread(h, q).len() - 1;
        lemma_place(ws, h, q, x);
        let j = place(h, q, x);
        lemma_others_idle(ws, h, p, j);
        lemma_thread_prefix(h, p, j);
        assert(changes_nothing(of_thread(h, q)[x]));
        lemma_start(ws, t, args(p).0, args(p).1, of_thread(h.take(j), p).len() as int);
    }
    assert(started_by(ws, h, args, p));
}

/// Only one thread does not wait.
proof fn lemma_others_wait(ws: Seq<u64>, h: Seq<Step>, args: spec_fn(int) -> (u64, u32), p: int)
    requires
        all_start(ws, h, args),
        !idle(Seq::empty(), of_thread(h, p)),
    ensures
        forall|q: int| q != p ==> idle(Seq::empty(), #[trigger] of_thread(h, q)),
{
    let none = Seq::<Event>::empty();
    assert forall|k: int| 0 <= k < h.len() implies starts_properly((#[trigger] h[k]).event) by {
        let q = h[k].thread;
        assert(init_seen(none, of_thread(h, q), args(q).0, args(q).1));
        lemma_turn(h, q, k);
        assert(starts_properly(of_thread(h, q)[of_thread(h.take(k), q).len() as int]));
    }
    assert forall|q: int| q != p implies idle(none, #[trigger] of_thread(h, q)) by {
        let t = of_thread(h, p);
        let u = of_thread(h, q);
        assert(init_seen(none, t, args(p).0, args(p).1));
        assert(init_seen(none, u, args(q).0, args(q).1));
        if !idle(none, u) {
            lemma_place(ws, h, p, t.len() - 8);
            lemma_place(ws, h, q, u.len() - 8);
            law_one_initializer(ws, h, place(h, p, t.len() - 8), place(h, q, u.len() - 8));
        }
    }
}

/// Threads that change nothing leave the memory to the one that does.
proof fn lemma_others_idle(ws: Seq<u64>, h: Seq<Step>, p: int, j: int)
    requires
        forall|q: int| q != p ==> idle(Seq::empty(), #[trigger] of_thread(h, q)),
        0 <= j <= h.len(),
    ensures
        after(ws, h.take(j)) == effects(ws, of_thread(h.take(j), p)),
    decreases j,
{
    if j > 0 {
        lemma_others_idle(ws, h, p, j - 1);
        let g = h.take(j - 1);
        let q = h[j - 1].thread;
        assert(h.take(j).drop_last() =~= g);
        if q == p {
            assert(of_thread(h.take(j), p).drop_last() =~= of_thread(g, p));
        } else {
            assert(idle(Seq::empty(), of_thread(h, q)));
            lemma_turn(h, q, j - 1);
            assert(changes_nothing(of_thread(h, q)[of_thread(g, q).len() as int]));
        }
    }
}

/// A thread that changes nothing leaves the memory as it is.
proof fn lemma_idle_effects(ws: Seq<u64>, t: Seq<Event>)
    requires
        forall|i: int| 0 <= i < t.len() ==> changes_nothing(#[trigger] t[i]),
    ensures
        effects(ws, t) == ws,
    decreases t.len(),
{
    if t.len() > 0 {
        let u = t.drop_last();
        assert forall|i: int| 0 <= i < u.len() implies changes_nothing(#[trigger] u[i]) by {
            assert(u[i] == t[i]);
        }
        lemma_idle_effects(ws, u);
        assert(changes_nothing(t[t.len() - 1]));
    }
}

/// The call that initializes a region makes it ready with its last access.
#[verifier::rlimit(40)]
proof fn lemma_start(ws: Seq<u64>, t: Seq<Event>, capacity: u64, backend: u32, y: int)
    requires
        in_words(ws, OFF_LOCK as int),
        lower(word(ws, OFF_STATE as int)) == INIT_FRESH,
        init_seen(Seq::empty(), t, capacity, backend),
        !idle(Seq::empty(), t),
        0 <= y <= t.len(),
    ensures
        y < t.len() ==> lower(word(effects(ws, t.take(y)), OFF_STATE as int)) != INIT_READY,
        y == t.len() ==> effects(ws, t) == initialized(ws, capacity, backend),
{
    let k = t.len() - 8;
    let m = if y < k {
        y
    } else {
        k
    };
    assert forall|i: int| 0 <= i < m implies changes_nothing(#[trigger] t.take(m)[i]) by {
        assert(t.take(k)[i] == t[i]);
    }
    lemma_idle_effects(ws, t.take(m));
    lemma_halves(INIT_WRITING, backend);
    lemma_halves(INIT_READY, backend);
    if y > k {
        assert(starts_properly(t[k]));
        let w0 = put(ws, OFF_STATE as int, t[k]->Cas_new);
        let w1 = put(w0, OFF_STATE as int, halves(INIT_WRITING, backend));
        let w2 = put(w1, OFF_CAPACITY as int, capacity);
        let w3 = put(w2, OFF_BUMP as int, SIZE_HEADER);
        let w4 = put(w3, OFF_FREE as int, FREE_EMPTY);
        let w5 = put(w4, OFF_ROOT as int, 0);
        let w6 = put(w5, OFF_LOCK as int, LOCK_FREE);
        assert(t.take(k + 1).drop_last() =~= t.take(k));
        assert(t.take(k + 2).drop_last() =~= t.take(k + 1));
        assert(t.take(k + 3).drop_last() =~= t.take(k + 2));
        assert(t.take(k + 4).drop_last() =~= t.take(k + 3));
        assert(t.take(k + 5).drop_last() =~= t.take(k + 4));
        assert(t.take(k + 6).drop_last() =~= t.take(k + 5));
        assert(t.take(k + 7).drop_last() =~= t.take(k + 6));
        assert(t.drop_last() =~= t.take(k + 7));
        assert(effects(ws, t.take(k + 1)) == w0);
        assert(effects(ws, t.take(k + 2)) == w1);
        assert(effects(ws, t.take(k + 3)) == w2);
        assert(effects(ws, t.take(k + 4)) == w3);
        assert(effects(ws, t.take(k + 5)) == w4);
        assert(effects(ws, t.take(k + 6)) == w5);
        assert(effects(ws, t.take(k + 7)) == w6);
        assert(effects(ws, t) =~= initialized(ws, capacity, backend));
    }
}

/// Each access found what the accesses before it had left.
proof fn lemma_step(ws: Seq<u64>, h: Seq<Step>, i: int)
    requires
        coherent(ws, h),
        0 <= i < h.len(),
    ensures
        crate::history::answers(after(ws, h.take(i)), h[i].event),
{
    lemma_coherent_prefix(ws, h, i + 1);
    assert(h.take(i + 1).drop_last() =~= h.take(i));
}

/// What is in use only becomes more.
proof fn lemma_bump_grows(ws: Seq<u64>, h: Seq<Step>, i: int, j: int)
    requires
        coherent(ws, h),
        in_words(ws, OFF_BUMP as int),
        forall|k: int| 0 <= k < h.len() ==> bumps_properly((#[trigger] h[k]).event),
        0 <= i <= j <= h.len(),
    ensures
        word(after(ws, h.take(i)), OFF_BUMP as int) <= word(
            after(ws, h.take(j)),
            OFF_BUMP as int,
        ),
    decreases j - i,
{
    if i < j {
        let g = h.take(j - 1);
        lemma_bump_grows(ws, h, i, j - 1);
        assert(h.take(j).drop_last() =~= g);
        assert(bumps_properly(h[j - 1].event));
        lemma_after_len(ws, g);
        lemma_effect(after(ws, g), h[j - 1].event, OFF_BUMP as int);
        lemma_step(ws, h, j - 1);
    }
}

/// Blocks that threads take from a region do not overlap: what is taken later lies
/// behind what was taken before.
pub proof fn law_blocks_apart(
    ws: Seq<u64>,
    h: Seq<Step>,
    i: int,
    j: int,
    a: u64,
    n: u64,
    b: u64,
    m: u64,
)
    requires
        coherent(ws, h),
        in_words(ws, OFF_BUMP as int),
        forall|k: int| 0 <= k < h.len() ==> bumps_properly((#[trigger] h[k]).event),
        0 <= i < j < h.len(),
        takes(h[i].event, a, n),
        takes(h[j].event, b, m),
    ensures
        a + n <= b,
{
    lemma_step(ws, h, i);
    lemma_step(ws, h, j);
    lemma_bump_grows(ws, h, i + 1, j);
    assert(h.take(i + 1).drop_last() =~= h.take(i));
    lemma_after_len(ws, h.take(i));
    lemma_effect(after(ws, h.take(i)), h[i].event, OFF_BUMP as int);
}

/// The header words that operations share are changed in order: the access moves the bound
/// of what is in use up, if it changes it, and sets a root only where there is none.
pub open spec fn header_in_order(e: Event) -> bool {
    bumps_properly(e) && roots_properly(e)
}

/// The access leaves a root where it is.
pub open spec fn roots_properly(e: Event) -> bool {
    match e {
        Event::Load { .. } => true,
        Event::Store { off, .. } => off != OFF_ROOT,
        Event::Cas { off, current, new, done } => done && off == OFF_ROOT ==> no_root(current)
            && !no_root(new),
    }
}

/// From `t0` to `t1` the thread has worked behind the header: the blocks that it was given
/// and the nodes that it held lie there.
pub open spec fn behind_header(t0: Seq<Event>, t1: Seq<Event>) -> bool {
    &&& forall|off: u64| off < SIZE_HEADER ==> !#[trigger] own_block(t0, t1, off)
    &&& forall|i: int, off: u64|
        t0.len() <= i < t1.len() && #[trigger] marks(t1[i], off) && off < SIZE_HEADER ==> off
            == OFF_LOCK
    &&& forall|i: int, m: u64, k: int|
        t0.len() <= i < t1.len() && #[trigger] holds_since(t0, t1.take(i), m, k) ==> m
            >= SIZE_HEADER
}

/// An operation that keeps to the discipline, on nodes behind the header, changes the
/// header words that threads share in order.
pub proof fn law_discipline_at_header(op: Op, t0: Seq<Event>, t1: Seq<Event>, i: int)
    requires
        disciplined(op, t0, t1),
        behind_header(t0, t1),
        t0.len() <= i < t1.len(),
    ensures
        header_in_order(t1[i]),
{
    let t = t1.take(i);
    let e = t1[i];
    assert(proper(op, t0, t, e));
    assert(t1.take(t.len() as int) =~= t);
    match e {
        Event::Load { .. } => {},
        Event::Cas { off, .. } => {
            if marks(e, off) {
                assert(off >= SIZE_HEADER || off == OFF_LOCK);
            }
        },
        Event::Store { off, val } => {
            if off < SIZE_HEADER {
                if open_block(t0, t, off) {
                    lemma_open_block(t0, t, off);
                    lemma_own_block(t0, t0, t, t1, off);
                }
                if !unguarded(t0, t, off) {
                    let (m, k) = choose|m: u64, k: int| #[trigger]
                        holds_since(t0, t, m, k) && to_held(op, t, m, k, off, val);
                    assert(m >= SIZE_HEADER);
                }
            }
        },
    }
}

/// A root that is there stays there.
proof fn lemma_root_remains(ws: Seq<u64>, h: Seq<Step>, i: int, j: int)
    requires
        coherent(ws, h),
        in_words(ws, OFF_ROOT as int),
        forall|k: int| 0 <= k < h.len() ==> roots_properly((#[trigger] h[k]).event),
        0 <= i <= j <= h.len(),
        !no_root(word(after(ws, h.take(i)), OFF_ROOT as int)),
    ensures
        word(after(ws, h.take(j)), OFF_ROOT as int) == word(
            after(ws, h.take(i)),
            OFF_ROOT as int,
        ),
    decreases j - i,
{
    if i < j {
        let g = h.take(j - 1);
        lemma_root_remains(ws, h, i, j - 1);
        assert(h.take(j).drop_last() =~= g);
        assert(roots_properly(h[j - 1].event));
        lemma_after_len(ws, g);
        lemma_effect(after(ws, g), h[j - 1].event, OFF_ROOT as int);
        lemma_step(ws, h, j - 1);
    }
}

/// All threads get the same root: whoever finds a root, or sets one, has the one that
/// everybody else has.
pub proof fn law_threads_share_the_root(
    ws: Seq<u64>,
    h: Seq<Step>,
    i: int,
    j: int,
    root: u64,
    other: u64,
)
    requires
        coherent(ws, h),
        in_words(ws, OFF_ROOT as int),
        forall|k: int| 0 <= k < h.len() ==> roots_properly((#[trigger] h[k]).event),
        0 <= i < h.len(),
        0 <= j < h.len(),
        gets_root(h[i].event, root),
        gets_root(h[j].event, other),
    ensures
        root == other,
{
    lemma_root_got(ws, h, i, root);
    lemma_root_got(ws, h, j, other);
    if i <= j {
        lemma_root_remains(ws, h, i + 1, j + 1);
    } else {
        lemma_root_remains(ws, h, j + 1, i + 1);
    }
}

/// The root that a thread gets is there then.
proof fn lemma_root_got(ws: Seq<u64>, h: Seq<Step>, i: int, root: u64)
    requires
        coherent(ws, h),
        in_words(ws, OFF_ROOT as int),
        forall|k: int| 0 <= k < h.len() ==> roots_properly((#[trigger] h[k]).event),
        0 <= i < h.len(),
        gets_root(h[i].event, root),
    ensures
        word(after(ws, h.take(i + 1)), OFF_ROOT as int) == root,
        !no_root(root),
{
    let g = h.take(i);
    assert(h.take(i + 1).drop_last() =~= g);
    assert(roots_properly(h[i].event));
    lemma_step(ws, h, i);
    lemma_after_len(ws, g);
    lemma_effect(after(ws, g), h[i].event, OFF_ROOT as int);
}

} // verus!
