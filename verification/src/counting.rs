//! Counters that several threads increment.
use crate::arena::odd;
use crate::history::{
    after, changes, coherent, lemma_after_len, lemma_effect, lemma_thread_prefix, of_thread, Step,
};
use crate::memory::{in_words, word, Event};
use crate::node::{counted_once, counter_at, increment_seen, successor, NODE_HDR};
use crate::trace::{bumped, changes_nothing, claims, extends, seq_off, uses_allocator};
use crate::value::{lemma_int, OFFSET_LIMIT};
use vstd::prelude::*;

verus! {

/// Where the counter of the node at `n` is.
pub open spec fn counter_off(n: u64) -> u64 {
    (n + NODE_HDR) as u64
}

/// How far a thread has got with an increment.
pub ghost enum Phase {
    /// Between two increments.
    Outside,
    /// It has claimed the version.
    Claimed { seq: u64 },
    /// It has read the counter.
    Read { seq: u64, val: u64 },
    /// It has written the next value.
    Written { seq: u64 },
    /// It has done something to the node that is no increment.
    Broken,
}

/// What becomes of the phase with one access.
pub open spec fn next_phase(phase: Phase, e: Event, n: u64) -> Phase {
    match phase {
        Phase::Outside => if claims(e, seq_off(n)) {
            Phase::Claimed { seq: e->Cas_current }
        } else if changes(e, seq_off(n) as int) || changes(e, counter_off(n) as int) {
            Phase::Broken
        } else {
            Phase::Outside
        },
        Phase::Claimed { seq } => match e {
            Event::Load { off, val } => if off == counter_off(n) {
                Phase::Read { seq, val }
            } else {
                Phase::Broken
            },
            _ => Phase::Broken,
        },
        Phase::Read { seq, val } => if e == (Event::Store {
            off: counter_off(n),
            val: successor(val as i64) as u64,
        }) {
            Phase::Written { seq }
        } else {
            Phase::Broken
        },
        Phase::Written { seq } => if e == (Event::Store { off: seq_off(n), val: bumped(seq) }) {
            Phase::Outside
        } else {
            Phase::Broken
        },
        Phase::Broken => Phase::Broken,
    }
}

/// How far a thread with the accesses `t` has got, from access `s` on.
pub open spec fn phase(t: Seq<Event>, n: u64, s: int) -> Phase
    decreases t.len(),
{
    if t.len() <= s || t.len() == 0 {
        Phase::Outside
    } else {
        next_phase(phase(t.drop_last(), n, s), t.last(), n)
    }
}

/// How many increments are among the accesses `t`, from access `s` on.
pub open spec fn increments(t: Seq<Event>, n: u64, s: int) -> nat
    decreases t.len(),
{
    if t.len() <= s || t.len() == 0 {
        0
    } else {
        increments(t.drop_last(), n, s) + if changes(t.last(), counter_off(n) as int) {
            1nat
        } else {
            0
        }
    }
}

/// How many increments are in the history `h`, from moment `since` on.
pub open spec fn all_increments(h: Seq<Step>, n: u64, since: int) -> nat
    decreases h.len(),
{
    if h.len() <= since || h.len() == 0 {
        0
    } else {
        all_increments(h.drop_last(), n, since) + if changes(h.last().event, counter_off(n) as int) {
            1nat
        } else {
            0
        }
    }
}

/// How many accesses thread `p` has made at moment `since`.
pub open spec fn begun(h: Seq<Step>, p: int, since: int) -> int {
    of_thread(h.take(since), p).len() as int
}

/// How many increments the threads below `m` have made, from moment `since` on.
pub open spec fn increments_below(h: Seq<Step>, n: u64, m: nat, since: int) -> nat
    decreases m,
{
    if m == 0 {
        0
    } else {
        increments_below(h, n, (m - 1) as nat, since) + increments(
            of_thread(h, m - 1),
            n,
            begun(h, m - 1, since),
        )
    }
}

/// `v` after `k` increments.
pub open spec fn advanced(v: i64, k: nat) -> i64
    decreases k,
{
    if k == 0 {
        v
    } else {
        successor(advanced(v, (k - 1) as nat))
    }
}

/// As long as the numbers do not run out, that is `v + k`.
pub proof fn lemma_advanced(v: i64, k: nat)
    requires
        v + k <= i64::MAX,
    ensures
        advanced(v, k) == v + k,
    decreases k,
{
    if k > 0 {
        lemma_advanced(v, (k - 1) as nat);
    }
}

/// From moment `since` on the threads do nothing to the node at `n` but increment its counter.
pub open spec fn counting(ws: Seq<u64>, h: Seq<Step>, n: u64, since: int) -> bool {
    &&& coherent(ws, h)
    &&& n < OFFSET_LIMIT
    &&& in_words(ws, n + 16)
    &&& in_words(ws, n + NODE_HDR)
    &&& 0 <= since <= h.len()
    &&& !odd(word(after(ws, h.take(since)), n + 16))
    &&& forall|p: int| #[trigger] counts_only(h, p, n, since)
}

/// From moment `since` on thread `p` does nothing to the node at `n` but increment its counter.
pub open spec fn counts_only(h: Seq<Step>, p: int, n: u64, since: int) -> bool {
    phase(of_thread(h, p), n, begun(h, p, since)) !is Broken
}

pub proof fn lemma_counting_prefix(ws: Seq<u64>, h: Seq<Step>, n: u64, i: int, since: int)
    requires
        counting(ws, h, n, since),
        since <= i <= h.len(),
    ensures
        counting(ws, h.take(i), n, since),
    decreases h.len(),
{
    if i == h.len() {
        assert(h.take(i) =~= h);
    } else {
        let g = h.drop_last();
        assert(g.take(since) =~= h.take(since));
        assert forall|p: int| #[trigger] counts_only(g, p, n, since) by {
            assert(counts_only(h, p, n, since));
            lemma_thread_prefix(g, p, since);
            if h.last().thread == p {
                assert(of_thread(h, p).drop_last() =~= of_thread(g, p));
            }
        }
        lemma_counting_prefix(ws, g, n, i, since);
        assert(g.take(i) =~= h.take(i));
    }
}

/// Thread `p` is in the middle of an increment.
pub open spec fn inside(h: Seq<Step>, p: int, n: u64, since: int) -> bool {
    phase(of_thread(h, p), n, begun(h, p, since)) !is Outside
}

/// The phase of thread `p` fits the memory.
pub open spec fn phase_stands(ws: Seq<u64>, h: Seq<Step>, p: int, n: u64, since: int) -> bool {
    let seq = word(after(ws, h), n + 16);
    match phase(of_thread(h, p), n, begun(h, p, since)) {
        Phase::Outside => true,
        Phase::Claimed { seq: s } => s % 2 == 0 && seq == s + 1,
        Phase::Read { seq: s, val } => s % 2 == 0 && seq == s + 1 && val == word(
            after(ws, h),
            n + NODE_HDR,
        ),
        Phase::Written { seq: s } => s % 2 == 0 && seq == s + 1,
        Phase::Broken => false,
    }
}

/// One thread at a time is in the middle of an increment, and the counter has advanced
/// by the number of increments.
#[verifier::rlimit(40)]
pub proof fn lemma_counting(ws: Seq<u64>, h: Seq<Step>, n: u64, since: int)
    requires
        counting(ws, h, n, since),
    ensures
        forall|p: int| #[trigger] phase_stands(ws, h, p, n, since),
        forall|p: int, q: int| #[trigger]
            inside(h, p, n, since) && #[trigger] inside(h, q, n, since) ==> p == q,
        (forall|p: int| !#[trigger] inside(h, p, n, since)) ==> !odd(word(after(ws, h), n + 16)),
        counter_at(after(ws, h), n as int) == advanced(
            counter_at(after(ws, h.take(since)), n as int),
            all_increments(h, n, since),
        ),
    decreases h.len(),
{
    if h.len() == since {
        assert(h.take(since) =~= h);
    } else {
        let g = h.drop_last();
        let e = h.last().event;
        let r = h.last().thread;
        assert(g =~= h.take(h.len() - 1));
        assert(g.take(since) =~= h.take(since));
        lemma_counting_prefix(ws, h, n, h.len() - 1, since);
        lemma_counting(ws, g, n, since);
        lemma_after_len(ws, g);
        lemma_effect(after(ws, g), e, n + 16);
        lemma_effect(after(ws, g), e, n + NODE_HDR);
        let s = begun(h, r, since);
        lemma_thread_prefix(g, r, since);
        assert(of_thread(h, r).drop_last() =~= of_thread(g, r));
        assert(counts_only(h, r, n, since));
        assert(phase_stands(ws, g, r, n, since));
        assert(inside(g, r, n, since) == (phase(of_thread(g, r), n, s) !is Outside));
        assert(inside(h, r, n, since) == (phase(of_thread(h, r), n, s) !is Outside));
        assert forall|p: int| p != r implies #[trigger] inside(h, p, n, since) == inside(
            g,
            p,
            n,
            since,
        ) by {}
        if claims(e, seq_off(n)) {
            assert forall|p: int| !#[trigger] inside(g, p, n, since) by {
                assert(phase_stands(ws, g, p, n, since));
            }
        }
        if phase(of_thread(g, r), n, s) is Outside && phase(of_thread(h, r), n, s) is Outside {
            assert forall|p: int| #[trigger] inside(h, p, n, since) == inside(g, p, n, since) by {}
            if forall|p: int| !#[trigger] inside(h, p, n, since) {
                assert forall|p: int| !#[trigger] inside(g, p, n, since) by {
                    assert(!inside(h, p, n, since));
                }
            }
        }
        assert forall|p: int| #[trigger] phase_stands(ws, h, p, n, since) by {
            assert(phase_stands(ws, g, p, n, since));
            if p != r {
                assert(of_thread(h, p) == of_thread(g, p));
                assert(inside(h, p, n, since) == inside(g, p, n, since));
            }
        }
        if changes(e, n + NODE_HDR) {
            let val = phase(of_thread(g, r), n, s)->Read_val;
            assert(phase(of_thread(g, r), n, s) is Read);
            lemma_int(successor(val as i64));
        }
    }
}

/// No lost updates: however the increments of the threads follow each other, the
/// counter has advanced by one for each of them.
pub proof fn law_no_lost_updates(ws: Seq<u64>, h: Seq<Step>, n: u64, m: nat, since: int)
    requires
        counting(ws, h, n, since),
        forall|i: int| 0 <= i < h.len() ==> 0 <= (#[trigger] h[i]).thread < m,
    ensures
        counter_at(after(ws, h), n as int) == advanced(
            counter_at(after(ws, h.take(since)), n as int),
            increments_below(h, n, m, since),
        ),
{
    lemma_counting(ws, h, n, since);
    lemma_increments_below(h, n, m, since);
}

/// Each increment gives the number that follows the one before it: the increment that
/// writes with step `i` gives the start value, advanced by the increments up to it.
pub proof fn law_increments_in_order(
    ws: Seq<u64>,
    h: Seq<Step>,
    n: u64,
    i: int,
    v: i64,
    since: int,
)
    requires
        counting(ws, h, n, since),
        since <= i < h.len(),
        h[i].event == (Event::Store { off: counter_off(n), val: v as u64 }),
    ensures
        v == advanced(
            counter_at(after(ws, h.take(since)), n as int),
            all_increments(h.take(i + 1), n, since),
        ),
        all_increments(h.take(i + 1), n, since) == all_increments(h.take(i), n, since) + 1,
{
    let x = h.take(i + 1);
    lemma_counting_prefix(ws, h, n, i + 1, since);
    lemma_counting(ws, x, n, since);
    assert(x.take(since) =~= h.take(since));
    assert(x.drop_last() =~= h.take(i));
    lemma_after_len(ws, h.take(i));
    lemma_effect(after(ws, h.take(i)), h[i].event, n + NODE_HDR);
    lemma_int(v);
}

proof fn lemma_increments_below(h: Seq<Step>, n: u64, m: nat, since: int)
    requires
        0 <= since <= h.len(),
        forall|i: int| 0 <= i < h.len() ==> 0 <= (#[trigger] h[i]).thread < m,
    ensures
        increments_below(h, n, m, since) == all_increments(h, n, since),
    decreases h.len(),
{
    if h.len() == since {
        lemma_increments_none(h, n, m, since);
    } else {
        let g = h.drop_last();
        assert forall|i: int| 0 <= i < g.len() implies 0 <= (#[trigger] g[i]).thread < m by {
            assert(h[i].thread < m);
        }
        lemma_increments_below(g, n, m, since);
        assert(0 <= h[h.len() - 1].thread < m);
        lemma_increments_step(h, n, m, since);
    }
}

proof fn lemma_increments_none(h: Seq<Step>, n: u64, m: nat, since: int)
    requires
        h.len() == since,
    ensures
        increments_below(h, n, m, since) == 0,
    decreases m,
{
    if m > 0 {
        lemma_increments_none(h, n, (m - 1) as nat, since);
        assert(h.take(since) =~= h);
    }
}

proof fn lemma_increments_step(h: Seq<Step>, n: u64, m: nat, since: int)
    requires
        h.len() > since,
        since >= 0,
        h.last().thread >= 0,
    ensures
        increments_below(h, n, m, since) == increments_below(h.drop_last(), n, m, since) + if h.last(
        ).thread < m && changes(h.last().event, counter_off(n) as int) {
            1nat
        } else {
            0
        },
    decreases m,
{
    if m > 0 {
        lemma_increments_step(h, n, (m - 1) as nat, since);
        let p = m - 1;
        let g = h.drop_last();
        assert(g.take(since) =~= h.take(since));
        lemma_thread_prefix(g, p, since);
        if h.last().thread == p {
            assert(of_thread(h, p).drop_last() =~= of_thread(g, p));
        }
    }
}

/// An increment that an operation reports is one increment: the thread is outside again
/// after it.
pub proof fn law_increment_is_one_update(t: Seq<Event>, n: u64, v: i64, s: int)
    requires
        s <= t.len() - 4,
        n < OFFSET_LIMIT,
        crate::format::SIZE_HEADER <= n,
        increment_seen(t, n, v),
        phase(t.take(t.len() - 4), n, s) is Outside,
    ensures
        phase(t, n, s) is Outside,
        increments(t, n, s) == increments(t.take(t.len() - 4), n, s) + 1,
{
    let k = t.len() - 4;
    let t1 = t.take(k + 1);
    let t2 = t.take(k + 2);
    let t3 = t.take(k + 3);
    assert(t1.drop_last() =~= t.take(k));
    assert(t2.drop_last() =~= t1);
    assert(t3.drop_last() =~= t2);
    assert(t.drop_last() =~= t3);
    assert(t1.last() == t[k] && t2.last() == t[k + 1] && t3.last() == t[k + 2]);
    let seq = t[k]->Cas_current;
    assert(phase(t1, n, s) == Phase::Claimed { seq });
    assert(phase(t2, n, s) == Phase::Read { seq, val: t[k + 1]->Load_val });
    assert(phase(t3, n, s) == Phase::Written { seq });
    assert(increments(t1, n, s) == increments(t.take(k), n, s));
    assert(increments(t2, n, s) == increments(t1, n, s));
    assert(increments(t3, n, s) == increments(t2, n, s) + 1);
}

/// A call that increments a counter, and makes no node for it, is one increment of that
/// counter and leaves every other counter alone.
pub proof fn law_call_is_one_update(
    t0: Seq<Event>,
    t1: Seq<Event>,
    n: u64,
    v: i64,
    other: u64,
    s: int,
)
    requires
        s <= t0.len(),
        n < OFFSET_LIMIT,
        crate::format::SIZE_HEADER <= n,
        counted_once(t0, t1, n, v),
        !uses_allocator(t0, t1),
        phase(t0, n, s) is Outside,
        other < OFFSET_LIMIT,
        phase(t0, other, s) is Outside,
        other + NODE_HDR < n || n + NODE_HDR < other,
    ensures
        phase(t1, n, s) is Outside,
        increments(t1, n, s) == increments(t0, n, s) + 1,
        phase(t1, other, s) is Outside,
        increments(t1, other, s) == increments(t0, other, s),
{
    let t = t1.take(t1.len() - 4);
    assert forall|i: int, off: int| t0.len() <= i < t.len() implies !#[trigger] changes(
        t[i],
        off,
    ) by {
        assert(changes_nothing(t[i]));
    }
    law_elsewhere_counts_nothing(t0, t, n, s);
    law_increment_is_one_update(t1, n, v, s);
    assert forall|i: int| t0.len() <= i < t1.len() implies !changes(
        #[trigger] t1[i],
        seq_off(other) as int,
    ) && !changes(t1[i], counter_off(other) as int) by {
        if i < t.len() {
            assert(t[i] == t1[i]);
            assert(!changes(t[i], seq_off(other) as int));
            assert(!changes(t[i], counter_off(other) as int));
        }
    }
    law_elsewhere_counts_nothing(t0, t1, other, s);
}

/// What changes neither the version nor the counter of a node is no increment.
pub proof fn law_elsewhere_counts_nothing(t0: Seq<Event>, t1: Seq<Event>, n: u64, s: int)
    requires
        s <= t0.len(),
        extends(t0, t1),
        phase(t0, n, s) is Outside,
        forall|i: int|
            t0.len() <= i < t1.len() ==> !changes(#[trigger] t1[i], seq_off(n) as int) && !changes(
                t1[i],
                counter_off(n) as int,
            ),
    ensures
        phase(t1, n, s) is Outside,
        increments(t1, n, s) == increments(t0, n, s),
    decreases t1.len(),
{
    if t1.len() == t0.len() {
        assert(t1.take(t0.len() as int) =~= t1);
    } else {
        let t = t1.drop_last();
        assert(t.take(t0.len() as int) =~= t1.take(t0.len() as int));
        assert forall|i: int| t0.len() <= i < t.len() implies !changes(
            #[trigger] t[i],
            seq_off(n) as int,
        ) && !changes(t[i], counter_off(n) as int) by {
            assert(t[i] == t1[i]);
        }
        law_elsewhere_counts_nothing(t0, t, n, s);
        assert(t1.last() == t1[t1.len() - 1]);
    }
}

} // verus!
