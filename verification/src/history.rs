//! Histories: what several threads do to one memory.
//!
//! The accesses of all threads take effect one after the other. What each thread
//! does between two of its own accesses is not known to the others; what is proved
//! here holds for every order in which the accesses of the threads can follow each
//! other.
use crate::arena::odd;
use crate::discipline::{
    disciplined, holds_since, lemma_open_block, lemma_own_block, moves_version, open_block,
    own_block, proper, to_held, Op,
};
use crate::format::SIZE_HEADER;
use crate::graph::{found_in, lookup};
use crate::memory::{in_words, lemma_word_put, put, word, Event};
use crate::node::{
    bytes_seen, node_header, str_bytes, str_read, str_seen, text_of, value_at, value_seen, NODE_HDR,
};
use crate::record::{agrees, answered};
use crate::trace::{
    at_most_one_window, bumped, changes_nothing, claimed, claims, extends, held, idle,
    inside_window, loads, marks, open_window, released, seen, seq_off, stable_from, window,
};
use crate::value::{
    container_kind, kind_of, off_of, Value, H_INVALID, KIND_BIGINT, KIND_BOOL, KIND_F64, KIND_INT,
    KIND_STR, OFFSET_LIMIT,
};
use crate::words::upper;
use vstd::prelude::*;

verus! {

/// One access, and the thread that makes it.
pub ghost struct Step {
    pub thread: int,
    pub event: Event,
}

/// The memory after one access.
pub open spec fn effect(ws: Seq<u64>, e: Event) -> Seq<u64> {
    match e {
        Event::Load { .. } => ws,
        Event::Store { off, val } => put(ws, off as int, val),
        Event::Cas { off, new, done, .. } => if done {
            put(ws, off as int, new)
        } else {
            ws
        },
    }
}

/// The memory after the accesses `h`.
pub open spec fn after(ws: Seq<u64>, h: Seq<Step>) -> Seq<u64>
    decreases h.len(),
{
    if h.len() == 0 {
        ws
    } else {
        effect(after(ws, h.drop_last()), h.last().event)
    }
}

/// What came back from the access fits the memory `ws`.
pub open spec fn answers(ws: Seq<u64>, e: Event) -> bool {
    match e {
        Event::Load { off, val } => val == word(ws, off as int),
        Event::Store { .. } => true,
        Event::Cas { off, current, done, .. } => done == (in_words(ws, off as int) && word(
            ws,
            off as int,
        ) == current),
    }
}

/// Each access of `h`, which starts on the memory `ws`, found what the accesses
/// before it had left.
pub open spec fn coherent(ws: Seq<u64>, h: Seq<Step>) -> bool
    decreases h.len(),
{
    h.len() == 0 || coherent(ws, h.drop_last()) && answers(
        after(ws, h.drop_last()),
        h.last().event,
    )
}

/// The accesses of thread `p`, in order.
pub open spec fn of_thread(h: Seq<Step>, p: int) -> Seq<Event>
    decreases h.len(),
{
    if h.len() == 0 {
        Seq::empty()
    } else if h.last().thread == p {
        of_thread(h.drop_last(), p).push(h.last().event)
    } else {
        of_thread(h.drop_last(), p)
    }
}

/// The access changes the word at `off`.
pub open spec fn changes(e: Event, off: int) -> bool {
    match e {
        Event::Load { .. } => false,
        Event::Store { off: o, .. } => o == off,
        Event::Cas { off: o, done, .. } => done && o == off,
    }
}

/// What the access writes.
pub open spec fn written(e: Event) -> u64 {
    match e {
        Event::Load { .. } => 0,
        Event::Store { val, .. } => val,
        Event::Cas { new, .. } => new,
    }
}

/// An access leaves the words alone that it does not change.
pub proof fn lemma_effect(ws: Seq<u64>, e: Event, off: int)
    ensures
        effect(ws, e).len() == ws.len(),
        !changes(e, off) ==> word(effect(ws, e), off) == word(ws, off),
        changes(e, off) && in_words(ws, off) ==> word(effect(ws, e), off) == written(e),
{
    match e {
        Event::Load { .. } => {},
        Event::Store { off: o, val } => {
            lemma_word_put(ws, o as int, val, off);
        },
        Event::Cas { off: o, new, .. } => {
            lemma_word_put(ws, o as int, new, off);
        },
    }
}

pub proof fn lemma_after_len(ws: Seq<u64>, h: Seq<Step>)
    ensures
        after(ws, h).len() == ws.len(),
    decreases h.len(),
{
    if h.len() > 0 {
        lemma_after_len(ws, h.drop_last());
        lemma_effect(after(ws, h.drop_last()), h.last().event, 0);
    }
}

// The version of a node.

/// The version at which a thread with the accesses `t` holds the lock at `off`, if
/// it does.
pub open spec fn claim_of(t: Seq<Event>, off: u64) -> Option<u64>
    decreases t.len(),
{
    if t.len() == 0 {
        None
    } else if claims(t.last(), off) {
        Some(t.last()->Cas_current)
    } else if t.last() matches Event::Store { off: o, .. } && o == off {
        None
    } else {
        claim_of(t.drop_last(), off)
    }
}

/// A thread that holds the version of the node at `n` as `claim` says may make this
/// access: it claims the version, or releases what it claimed, two up; it changes
/// the words of the node, which ends before `hi`, only while it holds the version.
pub open spec fn allowed(claim: Option<u64>, e: Event, n: u64, hi: int) -> bool {
    match e {
        Event::Load { .. } => true,
        Event::Store { off, val } => if off == seq_off(n) {
            claim matches Some(s) && val == bumped(s)
        } else {
            n < off < hi ==> claim is Some
        },
        Event::Cas { off, done, .. } => if off == seq_off(n) {
            done ==> claims(e, off)
        } else {
            n < off < hi ==> !done
        },
    }
}

/// A thread with the accesses `t` keeps to the order of claiming, changing and
/// releasing the node at `n`.
pub open spec fn orderly(t: Seq<Event>, n: u64, hi: int) -> bool
    decreases t.len(),
{
    t.len() == 0 || orderly(t.drop_last(), n, hi) && allowed(
        claim_of(t.drop_last(), seq_off(n)),
        t.last(),
        n,
        hi,
    )
}

/// A thread with the accesses `t` keeps to the order at the node at `n` from access `s` on.
pub open spec fn orderly_from(t: Seq<Event>, n: u64, hi: int, s: int) -> bool
    decreases t.len(),
{
    t.len() <= s || t.len() == 0 || orderly_from(t.drop_last(), n, hi, s) && allowed(
        claim_of(t.drop_last(), seq_off(n)),
        t.last(),
        n,
        hi,
    )
}

/// Thread `p` does not hold the node at `n` at moment `since` of the history, and keeps to the
/// order at the node from then on.
pub open spec fn keeps_order(h: Seq<Step>, p: int, n: u64, hi: int, since: int) -> bool {
    let s = of_thread(h.take(since), p);
    claim_of(s, seq_off(n)) is None && orderly_from(of_thread(h, p), n, hi, s.len() as int)
}

/// All threads keep to the order at the node at `n` from moment `since` on, when nobody holds its
/// version.
pub open spec fn guarded(ws: Seq<u64>, h: Seq<Step>, n: u64, hi: int, since: int) -> bool {
    &&& coherent(ws, h)
    &&& n < OFFSET_LIMIT
    &&& in_words(ws, n + 16)
    &&& 0 <= since <= h.len()
    &&& !odd(word(after(ws, h.take(since)), n + 16))
    &&& forall|p: int| #[trigger] keeps_order(h, p, n, hi, since)
}

/// Threads that keep to the order at a node from the beginning guard it.
pub proof fn law_order_guards(ws: Seq<u64>, h: Seq<Step>, n: u64, hi: int)
    requires
        coherent(ws, h),
        n < OFFSET_LIMIT,
        in_words(ws, n + 16),
        !odd(word(ws, n + 16)),
        forall|p: int| orderly(#[trigger] of_thread(h, p), n, hi),
    ensures
        guarded(ws, h, n, hi, 0),
{
    assert forall|p: int| #[trigger] keeps_order(h, p, n, hi, 0) by {
        assert(h.take(0) =~= Seq::empty());
        assert(orderly(of_thread(h, p), n, hi));
        lemma_orderly_from(of_thread(h, p), n, hi);
    }
    assert(h.take(0) =~= Seq::empty());
}

proof fn lemma_orderly_from(t: Seq<Event>, n: u64, hi: int)
    requires
        orderly(t, n, hi),
    ensures
        orderly_from(t, n, hi, 0),
    decreases t.len(),
{
    if t.len() > 0 {
        lemma_orderly_from(t.drop_last(), n, hi);
    }
}

/// The last access of a guarded history keeps to the order.
proof fn lemma_last_allowed(ws: Seq<u64>, h: Seq<Step>, n: u64, hi: int, since: int)
    requires
        guarded(ws, h, n, hi, since),
        h.len() > since,
    ensures
        allowed(
            claim_of(of_thread(h.drop_last(), h.last().thread), seq_off(n)),
            h.last().event,
            n,
            hi,
        ),
{
    let r = h.last().thread;
    let g = h.drop_last();
    assert(keeps_order(h, r, n, hi, since));
    assert(of_thread(h, r).drop_last() =~= of_thread(g, r));
    lemma_thread_prefix(g, r, since);
    assert(g.take(since) =~= h.take(since));
}

/// A guarded history was guarded before.
pub proof fn lemma_guarded_prefix(ws: Seq<u64>, h: Seq<Step>, n: u64, hi: int, i: int, since: int)
    requires
        guarded(ws, h, n, hi, since),
        since <= i <= h.len(),
    ensures
        guarded(ws, h.take(i), n, hi, since),
    decreases h.len(),
{
    if i == h.len() {
        assert(h.take(i) =~= h);
    } else {
        let g = h.drop_last();
        assert(g.take(since) =~= h.take(since));
        assert forall|p: int| #[trigger] keeps_order(g, p, n, hi, since) by {
            assert(keeps_order(h, p, n, hi, since));
            lemma_thread_prefix(g, p, since);
            if h.last().thread == p {
                assert(of_thread(h, p).drop_last() =~= of_thread(g, p));
            }
        }
        lemma_guarded_prefix(ws, g, n, hi, i, since);
        assert(g.take(i) =~= h.take(i));
    }
}

/// Thread `p` holds the version of the node at `n`.
pub open spec fn holds(h: Seq<Step>, p: int, n: u64) -> bool {
    claim_of(of_thread(h, p), seq_off(n)) is Some
}

/// If thread `p` holds the version of the node at `n`, it is the one that it set.
pub open spec fn claim_stands(ws: Seq<u64>, h: Seq<Step>, p: int, n: u64) -> bool {
    match claim_of(of_thread(h, p), seq_off(n)) {
        Some(s) => s % 2 == 0 && word(after(ws, h), n + 16) == s + 1,
        None => true,
    }
}

/// Whoever holds the version of a node has set its lowest bit; if nobody does, it is
/// not set.
pub proof fn lemma_holder(ws: Seq<u64>, h: Seq<Step>, n: u64, hi: int, since: int)
    requires
        guarded(ws, h, n, hi, since),
    ensures
        forall|p: int| #[trigger] claim_stands(ws, h, p, n),
        forall|p: int, q: int| #[trigger]
            holds(h, p, n) && #[trigger] holds(h, q, n) ==> p == q,
        (forall|p: int| !#[trigger] holds(h, p, n)) ==> !odd(word(after(ws, h), n + 16)),
    decreases h.len(),
{
    if h.len() == since {
        assert(h.take(since) =~= h);
        assert forall|p: int| #[trigger] claim_stands(ws, h, p, n) && !holds(h, p, n) by {
            assert(keeps_order(h, p, n, hi, since));
        }
        assert forall|p: int| !#[trigger] holds(h, p, n) by {
            assert(keeps_order(h, p, n, hi, since));
        }
    } else {
        let g = h.drop_last();
        let e = h.last().event;
        let r = h.last().thread;
        assert(g =~= h.take(h.len() - 1));
        lemma_guarded_prefix(ws, h, n, hi, h.len() - 1, since);
        lemma_holder(ws, g, n, hi, since);
        lemma_after_len(ws, g);
        lemma_effect(after(ws, g), e, n + 16);
        assert(of_thread(h, r).drop_last() =~= of_thread(g, r));
        lemma_last_allowed(ws, h, n, hi, since);
        assert(claim_of(of_thread(g, r), seq_off(n)) is Some == holds(g, r, n));
        assert forall|p: int| p != r implies of_thread(h, p) == of_thread(g, p) by {}
        assert forall|p: int| p != r implies #[trigger] holds(h, p, n) == holds(g, p, n) by {}
        if claims(e, seq_off(n)) {
            assert forall|p: int| !#[trigger] holds(g, p, n) by {
                assert(claim_stands(ws, g, p, n));
            }
            assert(holds(h, r, n));
            assert(!odd(word(after(ws, g), n + 16)));
        } else if changes(e, n + 16) {
            assert(claim_stands(ws, g, r, n));
            assert(holds(g, r, n));
            assert(word(after(ws, h), n + 16) == written(e));
            assert(!odd(written(e)));
            assert forall|p: int| !#[trigger] holds(h, p, n) by {
                if p != r {
                    assert(holds(h, p, n) == holds(g, p, n));
                }
            }
        } else {
            assert(claim_of(of_thread(h, r), seq_off(n)) == claim_of(of_thread(g, r), seq_off(n)));
            assert(holds(h, r, n) == holds(g, r, n));
            if forall|p: int| !#[trigger] holds(h, p, n) {
                assert forall|p: int| !#[trigger] holds(g, p, n) by {
                    assert(!holds(h, p, n));
                }
            }
        }
        assert forall|p: int| #[trigger] claim_stands(ws, h, p, n) by {
            assert(claim_stands(ws, g, p, n));
            if p != r {
                assert(of_thread(h, p) == of_thread(g, p));
                if changes(e, n + 16) {
                    if claims(e, seq_off(n)) {
                        assert(!holds(g, p, n));
                    } else {
                        assert(holds(g, r, n));
                        assert(holds(g, p, n) == (claim_of(of_thread(g, p), seq_off(n)) is Some));
                    }
                }
            }
        }
    }
}

/// Only one writer is inside a node at a time: no two threads hold the version of a
/// node, and while one does, the lowest bit of the version is set.
pub proof fn law_one_writer(
    ws: Seq<u64>,
    h: Seq<Step>,
    n: u64,
    hi: int,
    p: int,
    q: int,
    since: int,
)
    requires
        guarded(ws, h, n, hi, since),
        holds(h, p, n),
        holds(h, q, n),
    ensures
        p == q,
        odd(word(after(ws, h), n + 16)),
{
    lemma_holder(ws, h, n, hi, since);
    assert(claim_stands(ws, h, p, n));
}

/// How often the word at `off` has been changed.
pub open spec fn moves(h: Seq<Step>, off: int) -> nat
    decreases h.len(),
{
    if h.len() == 0 {
        0
    } else {
        moves(h.drop_last(), off) + if changes(h.last().event, off) {
            1nat
        } else {
            0
        }
    }
}

/// With each change the version of a node goes one up.
pub proof fn lemma_version_counts(ws: Seq<u64>, h: Seq<Step>, n: u64, hi: int, since: int)
    requires
        guarded(ws, h, n, hi, since),
    ensures
        word(after(ws, h), n + 16) as int == (word(after(ws, h.take(since)), n + 16) + moves(
            h,
            n + 16,
        ) - moves(h.take(since), n + 16)) % 0x1_0000_0000_0000_0000,
    decreases h.len(),
{
    if h.len() == since {
        assert(h.take(since) =~= h);
    } else {
        let g = h.drop_last();
        let e = h.last().event;
        let r = h.last().thread;
        assert(g =~= h.take(h.len() - 1));
        lemma_guarded_prefix(ws, h, n, hi, h.len() - 1, since);
        lemma_version_counts(ws, g, n, hi, since);
        lemma_holder(ws, g, n, hi, since);
        lemma_after_len(ws, g);
        lemma_effect(after(ws, g), e, n + 16);
        assert(of_thread(h, r).drop_last() =~= of_thread(g, r));
        assert(g.take(since) =~= h.take(since));
        lemma_last_allowed(ws, h, n, hi, since);
        assert(claim_stands(ws, g, r, n));
    }
}

/// The number of changes between two moments.
pub proof fn lemma_moves_between(h: Seq<Step>, off: int, i: int, j: int)
    requires
        0 <= i <= j <= h.len(),
    ensures
        moves(h.take(i), off) <= moves(h.take(j), off) <= moves(h.take(i), off) + (j - i),
        forall|k: int|
            i <= k < j && moves(h.take(i), off) == moves(h.take(j), off) ==> !#[trigger] changes(
                h[k].event,
                off,
            ),
    decreases j - i,
{
    if i < j {
        lemma_moves_between(h, off, i, j - 1);
        assert(h.take(j).drop_last() =~= h.take(j - 1));
    }
}

/// While nobody claims the version of a node that nobody holds, the node stays as it
/// is.
proof fn lemma_quiet(ws: Seq<u64>, h: Seq<Step>, n: u64, hi: int, i: int, j: int, since: int)
    requires
        guarded(ws, h, n, hi, since),
        since <= i <= j <= h.len(),
        !odd(word(after(ws, h.take(i)), n + 16)),
        forall|k: int| i <= k < j ==> !#[trigger] changes(h[k].event, n + 16),
    ensures
        forall|off: int|
            n < off < hi ==> #[trigger] word(after(ws, h.take(j)), off) == word(
                after(ws, h.take(i)),
                off,
            ),
        forall|p: int| !#[trigger] holds(h.take(j), p, n),
    decreases j - i,
{
    lemma_guarded_prefix(ws, h, n, hi, j, since);
    if i == j {
        lemma_holder(ws, h.take(i), n, hi, since);
        assert forall|p: int| !#[trigger] holds(h.take(j), p, n) by {
            assert(claim_stands(ws, h.take(i), p, n));
        }
    } else {
        lemma_quiet(ws, h, n, hi, i, j - 1, since);
        let g = h.take(j - 1);
        let x = h.take(j);
        let e = h[j - 1].event;
        let r = h[j - 1].thread;
        assert(x.drop_last() =~= g);
        assert(of_thread(x, r).drop_last() =~= of_thread(g, r));
        lemma_last_allowed(ws, x, n, hi, since);
        assert(!holds(g, r, n));
        assert(!changes(e, n + 16));
        assert forall|off: int| n < off < hi implies #[trigger] word(after(ws, x), off) == word(
            after(ws, h.take(i)),
            off,
        ) by {
            lemma_effect(after(ws, g), e, off);
            assert(word(after(ws, g), off) == word(after(ws, h.take(i)), off));
        }
        assert forall|p: int| !#[trigger] holds(x, p, n) by {
            assert(!holds(g, p, n));
            if p == r {
                assert(!claims(e, seq_off(n)));
            }
        }
    }
}

/// A version that is found again vouches for the node: if the version of a node is the
/// same even number at two moments, nothing of the node has changed in between. (The
/// version comes back only after as many changes as there are numbers in a word.)
pub proof fn law_stable_version(
    ws: Seq<u64>,
    h: Seq<Step>,
    n: u64,
    hi: int,
    i: int,
    j: int,
    k: int,
    since: int,
)
    requires
        guarded(ws, h, n, hi, since),
        since <= i <= k <= j <= h.len(),
        h.len() <= u64::MAX,
        !odd(word(after(ws, h.take(i)), n + 16)),
        word(after(ws, h.take(i)), n + 16) == word(after(ws, h.take(j)), n + 16),
    ensures
        forall|off: int|
            n < off < hi ==> #[trigger] word(after(ws, h.take(k)), off) == word(
                after(ws, h.take(i)),
                off,
            ),
        forall|p: int| !#[trigger] holds(h.take(k), p, n),
{
    let m = 0x1_0000_0000_0000_0000int;
    lemma_guarded_prefix(ws, h, n, hi, i, since);
    lemma_guarded_prefix(ws, h, n, hi, j, since);
    lemma_version_counts(ws, h.take(i), n, hi, since);
    lemma_version_counts(ws, h.take(j), n, hi, since);
    lemma_moves_between(h, n + 16, i, j);
    let a = moves(h.take(i), n + 16) as int;
    let b = moves(h.take(j), n + 16) as int;
    let v = word(after(ws, h.take(since)), n + 16) - moves(h.take(since), n + 16);
    assert(h.take(i).take(since) =~= h.take(since));
    assert(h.take(j).take(since) =~= h.take(since));
    assert((v + a) % m == (v + b) % m);
    assert(0 <= b - a < m);
    assert(a == b);
    lemma_quiet(ws, h, n, hi, i, k, since);
}

// What the operations do keeps to the order.

/// Operations that change nothing of a node keep to the order at that node.
pub proof fn law_elsewhere_is_orderly(t0: Seq<Event>, t1: Seq<Event>, n: u64, hi: int)
    requires
        orderly(t0, n, hi),
        extends(t0, t1),
        forall|i: int, off: int|
            t0.len() <= i < t1.len() && (n < off < hi || off == seq_off(n)) ==> !#[trigger] changes(
                t1[i],
                off,
            ),
    ensures
        orderly(t1, n, hi),
        claim_of(t1, seq_off(n)) == claim_of(t0, seq_off(n)),
    decreases t1.len(),
{
    if t1.len() == t0.len() {
        assert(t1.take(t0.len() as int) =~= t1);
    } else {
        let t = t1.drop_last();
        assert(t.take(t0.len() as int) =~= t1.take(t0.len() as int));
        assert forall|i: int, off: int|
            t0.len() <= i < t.len() && (n < off < hi || off == seq_off(n)) implies !#[trigger] changes(
            t[i],
            off,
        ) by {
            assert(!changes(t1[i], off));
        }
        law_elsewhere_is_orderly(t0, t, n, hi);
        let e = t1.last();
        assert(e == t1[t1.len() - 1]);
        match e {
            Event::Load { .. } => {},
            Event::Store { off, .. } => {
                assert(changes(e, off as int));
            },
            Event::Cas { off, done, .. } => {
                assert(done ==> changes(e, off as int));
            },
        }
    }
}

proof fn lemma_open_window_orderly(
    t0: Seq<Event>,
    t: Seq<Event>,
    n: u64,
    end: int,
    k: int,
    hi: int,
)
    requires
        orderly(t0, n, hi),
        claim_of(t0, seq_off(n)) is None,
        SIZE_HEADER <= n < OFFSET_LIMIT,
        open_window(t0, t, n, end, k),
    ensures
        orderly(t, n, hi),
        claim_of(t, seq_off(n)) == Some(claimed(t, k)),
    decreases t.len(),
{
    let e = t.last();
    let u = t.drop_last();
    if t.len() == k + 1 {
        assert(t.take(k) =~= u);
        lemma_idle_orderly(t0, u, n, hi);
    } else {
        assert(u.take(k) =~= t.take(k));
        assert(e == t[t.len() - 1]);
        assert forall|i: int| k < i < u.len() implies inside_window(#[trigger] u[i], n, end) by {
            assert(inside_window(t[i], n, end));
        }
        lemma_open_window_orderly(t0, u, n, end, k, hi);
    }
}

proof fn lemma_idle_orderly(t0: Seq<Event>, t1: Seq<Event>, n: u64, hi: int)
    requires
        orderly(t0, n, hi),
        idle(t0, t1),
    ensures
        orderly(t1, n, hi),
        claim_of(t1, seq_off(n)) == claim_of(t0, seq_off(n)),
{
    assert forall|i: int, off: int|
        t0.len() <= i < t1.len() && (n < off < hi || off == seq_off(n)) implies !#[trigger] changes(
        t1[i],
        off,
    ) by {
        assert(changes_nothing(t1[i]));
    }
    law_elsewhere_is_orderly(t0, t1, n, hi);
}

/// An operation that does nothing, or changes a node in one window, keeps to the order
/// at that node, and has released its version in the end.
pub proof fn law_window_is_orderly(t0: Seq<Event>, t1: Seq<Event>, n: u64, end: int, hi: int)
    requires
        orderly(t0, n, hi),
        claim_of(t0, seq_off(n)) is None,
        SIZE_HEADER <= n < OFFSET_LIMIT,
        at_most_one_window(t0, t1, n, end),
    ensures
        orderly(t1, n, hi),
        claim_of(t1, seq_off(n)) is None,
{
    if idle(t0, t1) {
        lemma_idle_orderly(t0, t1, n, hi);
    } else {
        let k = choose|k: int| window(t0, t1, n, end, k);
        lemma_open_window_orderly(t0, t1.drop_last(), n, end, k, hi);
    }
}

/// Apart from what it does to the node at `n` itself, which ends before `hi`, the thread has
/// kept out of it from `t0` to `t1`: the blocks that it was given, the versions that it set
/// and the other nodes that it wrote to lie elsewhere.
pub open spec fn apart(op: Op, t0: Seq<Event>, t1: Seq<Event>, n: u64, hi: int) -> bool {
    &&& forall|off: u64|
        n < off < hi || off == seq_off(n) ==> !#[trigger] own_block(t0, t1, off)
    &&& forall|i: int|
        t0.len() <= i < t1.len() ==> keeps_out(op, t0, t1.take(i), #[trigger] t1[i], n, hi)
}

/// The access, if it changes the node at `n`, is meant for it.
pub open spec fn keeps_out(
    op: Op,
    t0: Seq<Event>,
    t: Seq<Event>,
    e: Event,
    n: u64,
    hi: int,
) -> bool {
    match e {
        Event::Load { .. } => true,
        Event::Cas { off, done, .. } => done && n < off < hi ==> off == seq_off(n),
        Event::Store { off, val } => n < off < hi || off == seq_off(n) ==> forall|
            m: u64,
            k: int,
        | #[trigger]
            holds_since(t0, t, m, k) && to_held(op, t, m, k, off, val) ==> m == n,
    }
}

/// A node that a thread holds is one whose version it has claimed.
pub(crate) proof fn lemma_holds_claim(t0: Seq<Event>, t: Seq<Event>, n: u64, k: int)
    requires
        SIZE_HEADER <= n < OFFSET_LIMIT,
        t0.len() <= k < t.len(),
        marks(t[k], seq_off(n)),
        forall|j: int| k < j < t.len() ==> !moves_version(#[trigger] t[j], seq_off(n)),
    ensures
        claim_of(t, seq_off(n)) == Some(claimed(t, k)),
    decreases t.len(),
{
    if k + 1 < t.len() {
        let u = t.drop_last();
        assert(!moves_version(t[t.len() - 1], seq_off(n)));
        assert forall|j: int| k < j < u.len() implies !moves_version(
            #[trigger] u[j],
            seq_off(n),
        ) by {
            assert(!moves_version(t[j], seq_off(n)));
        }
        lemma_holds_claim(t0, u, n, k);
    }
}

/// A lock that is held is one that has been claimed.
proof fn lemma_held_claim(t: Seq<Event>, off: u64)
    ensures
        held(t).contains(off) == (claim_of(t, off) is Some),
    decreases t.len(),
{
    if t.len() > 0 {
        lemma_held_claim(t.drop_last(), off);
    }
}

/// An operation that keeps to the discipline keeps to the order at every node that lies
/// apart from the blocks it was given and from the other nodes that it wrote to, and has
/// released the node in the end.
pub proof fn law_discipline_is_orderly(op: Op, t0: Seq<Event>, t1: Seq<Event>, n: u64, hi: int)
    requires
        orderly(t0, n, hi),
        claim_of(t0, seq_off(n)) is None,
        SIZE_HEADER <= n < OFFSET_LIMIT,
        disciplined(op, t0, t1),
        released(t0, t1),
        apart(op, t0, t1, n, hi),
    ensures
        orderly(t1, n, hi),
        claim_of(t1, seq_off(n)) is None,
{
    lemma_discipline_orderly(op, t0, t1, n, hi, t1.len() as int);
    assert(t1.take(t1.len() as int) =~= t1);
    lemma_held_claim(t0, seq_off(n));
    lemma_held_claim(t1, seq_off(n));
}

proof fn lemma_discipline_orderly(
    op: Op,
    t0: Seq<Event>,
    t1: Seq<Event>,
    n: u64,
    hi: int,
    i: int,
)
    requires
        orderly(t0, n, hi),
        SIZE_HEADER <= n < OFFSET_LIMIT,
        disciplined(op, t0, t1),
        apart(op, t0, t1, n, hi),
        t0.len() <= i <= t1.len(),
    ensures
        orderly(t1.take(i), n, hi),
    decreases i,
{
    if i > t0.len() {
        let t = t1.take(i - 1);
        let e = t1[i - 1];
        lemma_discipline_orderly(op, t0, t1, n, hi, i - 1);
        assert(t1.take(i).drop_last() =~= t);
        assert(proper(op, t0, t, e));
        assert(keeps_out(op, t0, t, e, n, hi));
        if let Event::Store { off, val } = e {
            if n < off < hi || off == seq_off(n) {
                assert(t1.take(t.len() as int) =~= t);
                if open_block(t0, t, off) {
                    lemma_open_block(t0, t, off);
                    lemma_own_block(t0, t0, t, t1, off);
                }
                let (m, k) = choose|m: u64, k: int| #[trigger]
                    holds_since(t0, t, m, k) && to_held(op, t, m, k, off, val);
                assert(m == n);
                assert forall|j: int| k < j < t.len() implies !moves_version(
                    #[trigger] t[j],
                    seq_off(n),
                ) by {
                    if moves_version(t[j], seq_off(n)) {
                        lemma_open_block(t0, t.take(j), seq_off(n));
                        assert(t1.take(j) =~= t.take(j));
                        lemma_own_block(t0, t0, t.take(j), t1, seq_off(n));
                    }
                }
                lemma_holds_claim(t0, t, n, k);
            }
        }
    }
}

// Reading.

/// Where in the history access `k` of thread `p` is.
pub open spec fn place(h: Seq<Step>, p: int, k: int) -> int
    decreases h.len(),
{
    if h.len() == 0 {
        0
    } else if h.last().thread == p && of_thread(h, p).len() == k + 1 {
        h.len() - 1
    } else {
        place(h.drop_last(), p, k)
    }
}

/// An access of a thread is found in its place, and found what was there then.
pub proof fn lemma_place(ws: Seq<u64>, h: Seq<Step>, p: int, k: int)
    requires
        coherent(ws, h),
        0 <= k < of_thread(h, p).len(),
    ensures
        ({
            let i = place(h, p, k);
            &&& 0 <= i < h.len()
            &&& h[i] == (Step { thread: p, event: of_thread(h, p)[k] })
            &&& of_thread(h.take(i), p).len() == k
            &&& answers(after(ws, h.take(i)), h[i].event)
        }),
    decreases h.len(),
{
    let g = h.drop_last();
    let i = place(h, p, k);
    if h.last().thread == p && of_thread(h, p).len() == k + 1 {
        assert(h.take(i) =~= g);
    } else {
        lemma_place(ws, g, p, k);
        assert(g.take(i) =~= h.take(i));
    }
}

/// Later accesses of a thread stand later in the history.
pub(crate) proof fn lemma_place_order(ws: Seq<u64>, h: Seq<Step>, p: int, k: int, m: int)
    requires
        coherent(ws, h),
        0 <= k <= m < of_thread(h, p).len(),
    ensures
        place(h, p, k) <= place(h, p, m),
{
    lemma_place(ws, h, p, k);
    lemma_place(ws, h, p, m);
    if place(h, p, m) < place(h, p, k) {
        lemma_thread_grows(h, p, place(h, p, m), place(h, p, k));
    }
}

/// The accesses of a thread become more.
pub(crate) proof fn lemma_thread_grows(h: Seq<Step>, p: int, i: int, j: int)
    requires
        0 <= i < j <= h.len(),
        h[i].thread == p,
    ensures
        of_thread(h.take(i), p).len() < of_thread(h.take(j), p).len(),
    decreases j - i,
{
    assert(h.take(j).drop_last() =~= h.take(j - 1));
    if i < j - 1 {
        lemma_thread_grows(h, p, i, j - 1);
    }
}

/// Access `k` of thread `p` comes after moment `since` of the history.
pub open spec fn comes_after(h: Seq<Step>, p: int, since: int, k: int) -> bool {
    of_thread(h.take(since), p).len() <= k
}

pub proof fn lemma_comes_after(ws: Seq<u64>, h: Seq<Step>, p: int, since: int, k: int)
    requires
        coherent(ws, h),
        0 <= since <= h.len(),
        comes_after(h, p, since, k),
        0 <= k < of_thread(h, p).len(),
    ensures
        since <= place(h, p, k),
{
    lemma_place(ws, h, p, k);
    if place(h, p, k) < since {
        lemma_thread_grows(h, p, place(h, p, k), since);
    }
}

/// At moment `j` of the history the words of the node at `n`, which ends before `hi`,
/// were what the accesses of `t` from `k` on found.
pub open spec fn one_moment(
    ws: Seq<u64>,
    h: Seq<Step>,
    t: Seq<Event>,
    n: u64,
    hi: int,
    k: int,
    j: int,
) -> bool {
    &&& 0 <= j <= h.len()
    &&& forall|i: int, off: int|
        k <= i < t.len() && n < off < hi && #[trigger] loads(t, i, off) ==> seen(t, i) == word(
            after(ws, h.take(j)),
            off,
        )
}

/// No torn reads: what a thread reads of a node between two looks at its version that
/// give the same even number is the node at one moment, at which no writer is inside the node.
pub proof fn law_no_torn_read(
    ws: Seq<u64>,
    h: Seq<Step>,
    n: u64,
    hi: int,
    p: int,
    k: int,
    since: int,
)
    requires
        guarded(ws, h, n, hi, since),
        comes_after(h, p, since, k),
        h.len() <= u64::MAX,
        stable_from(of_thread(h, p), n, k),
    ensures
        one_moment(ws, h, of_thread(h, p), n, hi, k, place(h, p, k)),
        !odd(word(after(ws, h.take(place(h, p, k))), n + 16)),
        forall|q: int| !#[trigger] holds(h.take(place(h, p, k)), q, n),
{
    let t = of_thread(h, p);
    let last = t.len() - 1;
    let i = place(h, p, k);
    let j = place(h, p, last);
    lemma_place(ws, h, p, k);
    lemma_comes_after(ws, h, p, since, k);
    lemma_place(ws, h, p, last);
    lemma_place_order(ws, h, p, k, last);
    law_stable_version(ws, h, n, hi, i, j, i, since);
    assert forall|m: int, off: int|
        k <= m < t.len() && n < off < hi && #[trigger] loads(t, m, off) implies seen(t, m) == word(
        after(ws, h.take(i)),
        off,
    ) by {
        lemma_place(ws, h, p, m);
        lemma_place_order(ws, h, p, k, m);
        lemma_place_order(ws, h, p, m, last);
        law_stable_version(ws, h, n, hi, i, j, place(h, p, m), since);
    }
}

/// A mutation acts on what it looked up: if a thread saw an even version of a node with
/// access `k`, and claims the node at that same version with access `m`, nothing of the
/// node has changed in between.
pub proof fn law_lookup_stands(
    ws: Seq<u64>,
    h: Seq<Step>,
    n: u64,
    hi: int,
    p: int,
    k: int,
    m: int,
    j: int,
    since: int,
)
    requires
        guarded(ws, h, n, hi, since),
        comes_after(h, p, since, k),
        h.len() <= u64::MAX,
        0 <= k < m < of_thread(h, p).len(),
        loads(of_thread(h, p), k, seq_off(n) as int),
        claims(of_thread(h, p)[m], seq_off(n)),
        claimed(of_thread(h, p), m) == seen(of_thread(h, p), k),
        place(h, p, k) <= j <= place(h, p, m),
    ensures
        forall|off: int|
            n < off < hi ==> #[trigger] word(after(ws, h.take(j)), off) == word(
                after(ws, h.take(place(h, p, k))),
                off,
            ),
{
    lemma_place(ws, h, p, k);
    lemma_place(ws, h, p, m);
    lemma_comes_after(ws, h, p, since, k);
    law_stable_version(ws, h, n, hi, place(h, p, k), place(h, p, m), j, since);
}

/// A mutation acts on what is there: if a thread looked `key` up in the object or map at `n`,
/// with the accesses from `k` to `i`, and claimed the node with access `m` at the version at
/// which it had looked, then what it found is what the node holds at the moment of the claim.
/// (What it read elsewhere, the texts of keys, is supposed not to have changed.)
pub proof fn law_lookup_holds_at_claim(
    ws: Seq<u64>,
    h: Seq<Step>,
    n: u64,
    hi: int,
    p: int,
    key: Seq<char>,
    entry: Option<(u32, u64)>,
    k: int,
    i: int,
    m: int,
    since: int,
)
    requires
        guarded(ws, h, n, hi, since),
        comes_after(h, p, since, k),
        h.len() <= u64::MAX,
        0 <= k < i <= m < of_thread(h, p).len(),
        lookup(of_thread(h, p).take(i), k, n, key, claimed(of_thread(h, p), m), entry),
        marks(of_thread(h, p)[m], seq_off(n)),
        forall|x: int, off: int|
            k <= x < i && !(n < off < hi) && #[trigger] loads(of_thread(h, p), x, off) ==> seen(
                of_thread(h, p),
                x,
            ) == word(after(ws, h.take(place(h, p, m))), off),
    ensures
        found_in(after(ws, h.take(place(h, p, m))), n, key, entry),
{
    let t = of_thread(h, p);
    let u = t.take(i);
    let a = place(h, p, k);
    let b = place(h, p, m);
    let now = after(ws, h.take(b));
    lemma_place(ws, h, p, k);
    lemma_place(ws, h, p, m);
    lemma_place_order(ws, h, p, k, m);
    assert(u[k] == t[k]);
    lemma_comes_after(ws, h, p, since, k);
    law_stable_version(ws, h, n, hi, a, b, b, since);
    assert forall|x: int| u.take(k).len() <= x < u.len() implies answered(
        now,
        #[trigger] u[x],
    ) by {
        assert(u[x] == t[x]);
        if let Event::Load { off, val } = t[x] {
            assert(loads(t, x, off as int));
            if n < off < hi {
                lemma_place(ws, h, p, x);
                lemma_place_order(ws, h, p, k, x);
                lemma_place_order(ws, h, p, x, m);
                law_stable_version(ws, h, n, hi, a, b, place(h, p, x), since);
            }
        }
    }
    assert(agrees(u.take(k), u, now));
}

// Writing.

/// The memory after the accesses `t` of one thread alone.
pub open spec fn effects(ws: Seq<u64>, t: Seq<Event>) -> Seq<u64>
    decreases t.len(),
{
    if t.len() == 0 {
        ws
    } else {
        effect(effects(ws, t.drop_last()), t.last())
    }
}

pub proof fn lemma_effects_len(ws: Seq<u64>, t: Seq<Event>)
    ensures
        effects(ws, t).len() == ws.len(),
    decreases t.len(),
{
    if t.len() > 0 {
        lemma_effects_len(ws, t.drop_last());
        lemma_effect(effects(ws, t.drop_last()), t.last(), 0);
    }
}

/// What a thread has done by some moment is the beginning of what it does.
pub(crate) proof fn lemma_thread_prefix(h: Seq<Step>, p: int, j: int)
    requires
        0 <= j <= h.len(),
    ensures
        ({
            let x = of_thread(h.take(j), p).len() as int;
            x <= of_thread(h, p).len() && of_thread(h, p).take(x) == of_thread(h.take(j), p)
        }),
    decreases h.len(),
{
    if j == h.len() {
        assert(h.take(j) =~= h);
        assert(of_thread(h, p).take(of_thread(h, p).len() as int) =~= of_thread(h, p));
    } else {
        let g = h.drop_last();
        let x = of_thread(h.take(j), p).len() as int;
        lemma_thread_prefix(g, p, j);
        assert(g.take(j) =~= h.take(j));
        assert(of_thread(h, p).take(x) =~= of_thread(g, p).take(x));
    }
}

/// Other threads keep out of a node that is held.
pub(crate) proof fn lemma_held_alone(
    ws: Seq<u64>,
    h: Seq<Step>,
    n: u64,
    hi: int,
    p: int,
    j: int,
    off: int,
    since: int,
)
    requires
        guarded(ws, h, n, hi, since),
        since <= j < h.len(),
        h[j].thread != p,
        holds(h.take(j), p, n),
        n < off < hi || off == n + 16,
    ensures
        !changes(h[j].event, off),
{
    let g = h.take(j);
    let x = h.take(j + 1);
    let q = h[j].thread;
    let e = h[j].event;
    lemma_guarded_prefix(ws, h, n, hi, j, since);
    lemma_guarded_prefix(ws, h, n, hi, j + 1, since);
    lemma_holder(ws, g, n, hi, since);
    assert(x.drop_last() =~= g);
    assert(of_thread(x, q).drop_last() =~= of_thread(g, q));
    lemma_last_allowed(ws, x, n, hi, since);
    assert(!holds(g, q, n));
    assert(claim_stands(ws, g, p, n));
    assert(answers(after(ws, g), e));
}

/// Between the claim of a node and its release the node is the thread's alone: at access `r`
/// the node, which was claimed with access `m` and has not been released, holds what it held
/// at the claim, changed by what the thread itself has written since.
pub proof fn law_window_is_atomic(
    ws: Seq<u64>,
    h: Seq<Step>,
    n: u64,
    hi: int,
    p: int,
    m: int,
    r: int,
    off: int,
    since: int,
)
    requires
        guarded(ws, h, n, hi, since),
        comes_after(h, p, since, m),
        SIZE_HEADER <= n,
        0 <= m < r < of_thread(h, p).len(),
        marks(of_thread(h, p)[m], seq_off(n)),
        forall|x: int| m < x < r ==> !moves_version(#[trigger] of_thread(h, p)[x], seq_off(n)),
        n < off < hi,
    ensures
        word(after(ws, h.take(place(h, p, r))), off) == word(
            effects(after(ws, h.take(place(h, p, m))), of_thread(h, p).subrange(m, r)),
            off,
        ),
{
    lemma_place(ws, h, p, m);
    lemma_place(ws, h, p, r);
    lemma_place_order(ws, h, p, m, r);
    lemma_window_step(ws, h, n, hi, p, m, r, off, place(h, p, r), since);
}

proof fn lemma_window_step(
    ws: Seq<u64>,
    h: Seq<Step>,
    n: u64,
    hi: int,
    p: int,
    m: int,
    r: int,
    off: int,
    j: int,
    since: int,
)
    requires
        guarded(ws, h, n, hi, since),
        comes_after(h, p, since, m),
        SIZE_HEADER <= n,
        0 <= m < r < of_thread(h, p).len(),
        marks(of_thread(h, p)[m], seq_off(n)),
        forall|x: int| m < x < r ==> !moves_version(#[trigger] of_thread(h, p)[x], seq_off(n)),
        n < off < hi,
        place(h, p, m) <= j <= place(h, p, r),
    ensures
        ({
            let x = of_thread(h.take(j), p).len() as int;
            &&& m <= x <= r
            &&& word(after(ws, h.take(j)), off) == word(
                effects(after(ws, h.take(place(h, p, m))), of_thread(h, p).subrange(m, x)),
                off,
            )
        }),
    decreases j,
{
    let t = of_thread(h, p);
    let a = place(h, p, m);
    let start = after(ws, h.take(a));
    lemma_place(ws, h, p, m);
    lemma_place(ws, h, p, r);
    lemma_comes_after(ws, h, p, since, m);
    if j == a {
        assert(t.subrange(m, m) =~= Seq::<Event>::empty());
    } else {
        let g = h.take(j - 1);
        let e = h[j - 1].event;
        lemma_window_step(ws, h, n, hi, p, m, r, off, j - 1, since);
        let x = of_thread(g, p).len() as int;
        assert(h.take(j).drop_last() =~= g);
        lemma_thread_prefix(h, p, j - 1);
        lemma_thread_prefix(h, p, j);
        lemma_after_len(ws, g);
        lemma_after_len(ws, h.take(a));
        lemma_effect(after(ws, g), e, off);
        if h[j - 1].thread == p {
            assert(of_thread(h.take(j), p).drop_last() =~= of_thread(g, p));
            assert(t.take(x + 1)[x] == e);
            assert(t[x] == e);
            if x == r {
                lemma_thread_grows(h, p, j - 1, place(h, p, r));
            }
            assert(t.subrange(m, x + 1).drop_last() =~= t.subrange(m, x));
            lemma_effects_len(start, t.subrange(m, x));
            lemma_effect(effects(start, t.subrange(m, x)), e, off);
        } else {
            lemma_thread_grows(h, p, a, j - 1);
            let u = of_thread(g, p);
            assert(u[m] == t.take(x)[m]);
            assert forall|y: int| m < y < u.len() implies !moves_version(
                #[trigger] u[y],
                seq_off(n),
            ) by {
                assert(u[y] == t.take(x)[y]);
                assert(!moves_version(t[y], seq_off(n)));
            }
            lemma_holds_claim(Seq::empty(), u, n, m);
            assert(holds(g, p, n));
            lemma_held_alone(ws, h, n, hi, p, j - 1, off, since);
        }
    }
}

/// The text of the node at `n` ends before `hi`, at all moments of the history.
pub open spec fn payload_fits(ws: Seq<u64>, h: Seq<Step>, n: u64, hi: int) -> bool {
    forall|j: int|
        0 <= j <= h.len() ==> n + NODE_HDR + node_header(
            #[trigger] after(ws, h.take(j)),
            n as int,
        ).store <= hi
}

/// The value behind `h` takes up more than one word.
pub open spec fn several_words(h: u64) -> bool {
    kind_of(h) == KIND_BIGINT || kind_of(h) == KIND_STR
}

/// No torn values: a value that a thread has read off a node, of one word or of several, is
/// what the node held at one moment, whatever the other threads wrote. If it is of several words,
/// no writer was inside the node at that moment: it is all of what one writer left.
pub proof fn law_no_torn_value(
    ws: Seq<u64>,
    h: Seq<Step>,
    p: int,
    t0: Seq<Event>,
    handle: u64,
    hi: int,
    v: Value,
    since: int,
)
    requires
        guarded(ws, h, off_of(handle), hi, since),
        comes_after(h, p, since, t0.len() as int),
        kind_of(handle) == KIND_BIGINT ==> off_of(handle) + NODE_HDR + 16 <= hi,
        kind_of(handle) == KIND_STR ==> payload_fits(ws, h, off_of(handle), hi),
        h.len() <= u64::MAX,
        value_seen(t0, of_thread(h, p), handle, v),
    ensures
        exists|j: int|
            0 <= j <= h.len() && value_at(#[trigger] after(ws, h.take(j)), handle) == v && (
            several_words(handle) ==> !odd(word(after(ws, h.take(j)), off_of(handle) + 16)) && forall|
                q: int,
            | !#[trigger] holds(h.take(j), q, off_of(handle))),
{
    let t = of_thread(h, p);
    let n = off_of(handle);
    let kind = kind_of(handle);
    if handle == H_INVALID || container_kind(kind) {
        assert(value_at(after(ws, h.take(0)), handle) == v);
    } else if kind == KIND_BOOL || kind == KIND_INT || kind == KIND_F64 {
        let k = t.len() - 1;
        let j = place(h, p, k);
        lemma_place(ws, h, p, k);
        assert(value_at(after(ws, h.take(j)), handle) == v);
    } else if kind == KIND_BIGINT {
        let k = t.len() - 4;
        law_no_torn_read(ws, h, n, hi, p, k, since);
        let j = place(h, p, k);
        assert(loads(t, k + 1, n + NODE_HDR));
        assert(loads(t, k + 2, n + NODE_HDR + 8));
        assert(value_at(after(ws, h.take(j)), handle) == v);
    } else if kind == KIND_STR {
        let bytes = choose|bytes: Seq<u8>| #[trigger]
            str_read(t0, t, n, bytes) && v == Value::Str(text_of(bytes));
        let k = choose|k: int|
            t0.len() <= k && #[trigger] str_seen(t, n, k) && bytes == bytes_seen(
                t,
                k + 2,
                upper(seen(t, k + 1)) as nat,
            );
        law_no_torn_read(ws, h, n, hi, p, k, since);
        let j = place(h, p, k);
        let m = after(ws, h.take(j));
        let len = upper(seen(t, k + 1));
        assert(loads(t, k + 1, n + 8));
        assert(node_header(m, n as int).store == len);
        assert(str_bytes(m, n as int) =~= bytes) by {
            assert forall|i: int| 0 <= i < len implies str_bytes(m, n as int)[i] == bytes[i] by {
                let w = i / 8;
                assert(loads(t, k + 2 + w, n + NODE_HDR + 8 * w));
            }
        }
        assert(value_at(m, handle) == v);
    } else {
        assert(value_at(after(ws, h.take(0)), handle) == v);
    }
}

} // verus!
