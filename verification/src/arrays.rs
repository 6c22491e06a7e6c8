//! Changing arrays.
use crate::discipline::{
    disciplined, has_room, lemma_claimed_and_finished, lemma_disciplined_join, lemma_finish,
    lemma_finish_push, lemma_idle_disciplined, lemma_window_disciplined, targets, Op,
};
use crate::layout::{cap_of, item_off, kept, live_list, wf};
use crate::lists::{item_fits, lemma_item_put, lemma_item_removed, lemma_pushed};
use crate::memory::{put, Event, Memory};
use crate::node::{cap_seen, claim, commit, load_cap, unlocked, NODE_HDR};
use crate::record::{
    beyond_seen, ends_in_window, extend_accesses, item_word, item_written, lemma_ends_in_window,
    lemma_window_inner, push_accesses, push_made, store,
};
use crate::tables::{item_put, item_removed, pushed, touched};
use crate::trace::{
    at_most_one_window, bumped, claimed, end_seen, extends, idle, lemma_idle_join,
    lemma_reads_only_idle, lemma_stays_inside, lemma_window_extends, loads, marks, open_window,
    reads_only, released, released_but, seq_off, stays_inside,
};
use crate::value::{hoff, off_of, GraphError, H_INVALID, OFFSET_LIMIT};
use crate::words::{lower, lower_half};
use vstd::prelude::*;

verus! {

broadcast use crate::trace::group_trace;

/// What was done between a claim and the release, written down.
proof fn lemma_window_done(
    t0: Seq<Event>,
    t1: Seq<Event>,
    t2: Seq<Event>,
    n: u64,
    seq: u64,
    inner: Seq<Event>,
)
    requires
        t1.len() > t0.len(),
        marks(t1.last(), seq_off(n)),
        claimed(t1, t1.len() - 1) == seq,
        t2 =~= (t1 + inner).push(store(n + 16, bumped(seq))),
    ensures
        ends_in_window(t0, t2, n, inner),
{
    lemma_ends_in_window(t0, t1.drop_last(), n, t1.last(), inner);
    assert(t1.drop_last().push(t1.last()) =~= t1);
}

/// A thread that looks how long an array is, and changes it in one window no further than slot
/// `slot`, keeps to the discipline, and to the array.
proof fn lemma_inside(
    t0: Seq<Event>,
    t1: Seq<Event>,
    t2: Seq<Event>,
    a: u64,
    cap: u32,
    slot: int,
    inner: Seq<Event>,
)
    requires
        idle(t1, t2) || ends_in_window(t1, t2, a, inner),
        forall|x: int|
            0 <= x < inner.len() ==> (#[trigger] inner[x] matches Event::Store { off, .. } ==> off
                == a + 24 || off == item_word(a, slot)),
        0 <= slot,
        a < OFFSET_LIMIT,
        reads_only(t0, t1),
        t0.len() < t1.len(),
        cap_seen(t1, t0.len() as int, a, cap),
        extends(t1, t2),
        slot < cap,
        at_most_one_window(t1, t2, a, item_word(a, slot) + 8),
    ensures
        stays_inside(t0, t2, a, 8),
        disciplined(Op::Items { a }, t0, t2),
{
    let j = t0.len() as int;
    let hi = a + NODE_HDR + 8 * cap;
    let lo = item_word(a, slot) + 8;
    lemma_reads_only_idle(t0, t1);
    assert(end_seen(t0, t1, a, 8, hi, j));
    lemma_stays_inside(t0, t1, t2, a, 8, hi, j, lo);
    let op = Op::Items { a };
    if !idle(t1, t2) {
        assert forall|i: int, off: u64, val: u64|
            t1.len() <= i < t2.len() - 1 && t2[i] == (Event::Store {
                off,
                val,
            }) implies #[trigger] targets(op, t2.take(i), a, off, val) by {
            let t = t2.take(i);
            assert(t2.take(t1.len() as int)[j] == t1[j]);
            assert(t[j] == t1[j]);
            lemma_window_inner(t1, t2, a, lo, inner, i);
            if off != a + 24 {
                assert(has_room(t, a, 8, off, j));
            }
        }
        lemma_window_disciplined(op, t1, t2, a, lo);
    } else {
        lemma_idle_disciplined(op, t1, t2);
    }
    lemma_idle_disciplined(op, t0, t1);
    lemma_disciplined_join(op, t0, t1, t2);
}

/// Appending to an array keeps to the discipline, and to the array.
proof fn lemma_push_inside(
    t0: Seq<Event>,
    t1: Seq<Event>,
    t2: Seq<Event>,
    a: u64,
    seq: u64,
    value: u64,
    len: u64,
    sizes: u64,
)
    requires
        a < OFFSET_LIMIT,
        t1.len() > 0,
        idle(t0, t1.drop_last()),
        marks(t1.last(), seq_off(a)),
        t1.last()->Cas_current == seq,
        t2 =~= (t1 + push_accesses(a, value, len, sizes)).push(store(a + 16, bumped(seq))),
        at_most_one_window(t0, t2, a, a + NODE_HDR + 8 * lower(sizes)),
    ensures
        stays_inside(t0, t2, a, 8),
        disciplined(Op::Items { a }, t0, t2),
{
    let op = Op::Items { a };
    let t = t1.drop_last();
    let inner = push_accesses(a, value, len, sizes);
    let x1 = t1.push(inner[0]);
    let x2 = x1.push(inner[1]);
    let j = t1.len() as int + 1;
    assert(t.push(t1.last()) =~= t1);
    assert(loads(t2, j, a + 8));
    assert(end_seen(t0, t2, a, 8, a + NODE_HDR + 8 * lower(sizes), j));
    if len < lower(sizes) {
        let x3 = x2.push(inner[2]);
        let x4 = x3.push(inner[3]);
        assert(t2 =~= x4.push(store(a + 16, bumped(seq))));
        assert(loads(x2, j, a + 8));
        assert(has_room(x2, a, 8, item_word(a, len as int) as u64, j));
        lemma_finish(op, x4, a, seq);
        lemma_finish_push(op, x3, inner[3], t2, a, seq);
        lemma_finish_push(op, x2, inner[2], t2, a, seq);
    } else {
        assert(t2 =~= x2.push(store(a + 16, bumped(seq))));
        lemma_finish(op, x2, a, seq);
    }
    lemma_finish_push(op, x1, inner[1], t2, a, seq);
    lemma_finish_push(op, t1, inner[0], t2, a, seq);
    lemma_claimed_and_finished(op, t, t1.last(), t2, a, seq);
    lemma_idle_disciplined(op, t0, t);
    lemma_disciplined_join(op, t0, t, t2);
}

/// Writes `value` into slot `slot` of the array at `a`, under its version. `false`
/// if another writer did not release it.
fn array_write<M: Memory>(mem: &mut M, a: u64, slot: u64, value: u64) -> (done: bool)
    requires
        a < OFFSET_LIMIT,
        slot <= 0xffff_ffff,
    ensures
        final(mem).patience() <= old(mem).patience(),
        released(old(mem).trace(), final(mem).trace()),
        at_most_one_window(
            old(mem).trace(),
            final(mem).trace(),
            a,
            item_word(a, slot as int) + 8,
        ),
        extends(old(mem).trace(), final(mem).trace()),
        !done ==> final(mem).patience() == 0 && idle(old(mem).trace(), final(mem).trace()),
        done ==> ends_in_window(
            old(mem).trace(),
            final(mem).trace(),
            a,
            seq![store(item_word(a, slot as int), value)],
        ),
        final(mem).undisturbed() ==> {
            let ws = old(mem).words();
            &&& old(mem).undisturbed()
            &&& done == unlocked(ws, a as int)
            &&& final(mem).words() == if done {
                touched(put(ws, item_off(a as int, slot as int), value), a as int)
            } else {
                ws
            }
        },
{
    let seq: u64 = match claim(mem, a) {
        Some(seq) => seq,
        None => {
            return false;
        },
    };
    let ghost k = mem.trace().len() - 1;
    let ghost t1 = mem.trace();
    let ghost hi = item_word(a, slot as int) + 8;
    assert(open_window(old(mem).trace(), t1, a, hi, k));
    mem.store(a + NODE_HDR + 8 * slot, value);
    let ghost t = mem.trace();
    assert(open_window(old(mem).trace(), t, a, hi, k));
    assert(released_but(old(mem).trace(), t, seq_off(a)));
    commit(mem, a, seq);
    proof {
        let inner = seq![store(item_word(a, slot as int), value)];
        lemma_window_done(old(mem).trace(), t1, mem.trace(), a, seq, inner);
        lemma_window_extends(old(mem).trace(), mem.trace(), a, hi);
    }
    assert(mem.undisturbed() ==> mem.words() =~= touched(
        put(old(mem).words(), item_off(a as int, slot as int), value),
        a as int,
    ));
    true
}

/// Writes `value` into slot `slot` of the array at `a`, under its version, and makes
/// the array at least that long. `false` if another writer did not release it.
fn array_extend<M: Memory>(mem: &mut M, a: u64, slot: u64, value: u64) -> (done: bool)
    requires
        a < OFFSET_LIMIT,
        slot <= 0xffff_ffff,
    ensures
        final(mem).patience() <= old(mem).patience(),
        released(old(mem).trace(), final(mem).trace()),
        at_most_one_window(
            old(mem).trace(),
            final(mem).trace(),
            a,
            item_word(a, slot as int) + 8,
        ),
        extends(old(mem).trace(), final(mem).trace()),
        !done ==> final(mem).patience() == 0 && idle(old(mem).trace(), final(mem).trace()),
        done ==> item_written(
            old(mem).trace(),
            final(mem).trace(),
            a,
            slot as int,
            value,
        ),
        final(mem).undisturbed() ==> {
            let ws = old(mem).words();
            &&& old(mem).undisturbed()
            &&& done == unlocked(ws, a as int)
            &&& final(mem).words() == if done {
                item_put(ws, a as int, slot as int, value)
            } else {
                ws
            }
        },
{
    let seq: u64 = match claim(mem, a) {
        Some(seq) => seq,
        None => {
            return false;
        },
    };
    let ghost k = mem.trace().len() - 1;
    let ghost t1 = mem.trace();
    let ghost hi = item_word(a, slot as int) + 8;
    assert(open_window(old(mem).trace(), t1, a, hi, k));
    mem.store(a + NODE_HDR + 8 * slot, value);
    let ghost t = mem.trace();
    assert(open_window(old(mem).trace(), t, a, hi, k));
    let count: u64 = mem.load(a + 24);
    let ghost t = mem.trace();
    assert(open_window(old(mem).trace(), t, a, hi, k));
    if slot + 1 > count {
        mem.store(a + 24, slot + 1);
    }
    let ghost t = mem.trace();
    assert(open_window(old(mem).trace(), t, a, hi, k));
    assert(released_but(old(mem).trace(), t, seq_off(a)));
    commit(mem, a, seq);
    proof {
        let inner = extend_accesses(a, slot as int, value, count);
        lemma_window_done(old(mem).trace(), t1, mem.trace(), a, seq, inner);
        lemma_window_extends(old(mem).trace(), mem.trace(), a, hi);
    }
    assert(mem.undisturbed() ==> mem.words() =~= item_put(
        old(mem).words(),
        a as int,
        slot as int,
        value,
    ));
    true
}

/// From `t0` to `t1` a change of slot `i` of the array at `a` was refused, with the error `e` and
/// so much `patience` left: the thread has run out of patience, or has seen that there is no such
/// slot.
pub open spec fn index_refused(
    t0: Seq<Event>,
    t1: Seq<Event>,
    a: u64,
    i: int,
    e: GraphError,
    patience: nat,
) -> bool {
    ||| e == GraphError::Busy && patience == 0
    ||| e == GraphError::ArrayFull && beyond_seen(t0, t1, a, i)
}

/// Sets slot `index` of an array to the handle `value`; the array is at least that
/// long then.
pub fn put_index<M: Memory>(mem: &mut M, handle: u64, index: usize, value: u64) -> (r: Result<
    (),
    GraphError,
>)
    ensures
        final(mem).patience() <= old(mem).patience(),
        released(old(mem).trace(), final(mem).trace()),
        disciplined(Op::Items { a: off_of(handle) }, old(mem).trace(), final(mem).trace()),
        stays_inside(old(mem).trace(), final(mem).trace(), off_of(handle), 8),
        r is Ok ==> item_written(
            old(mem).trace(),
            final(mem).trace(),
            off_of(handle),
            index as int,
            value,
        ),
        r matches Err(e) ==> idle(old(mem).trace(), final(mem).trace()) && index_refused(
            old(mem).trace(),
            final(mem).trace(),
            off_of(handle),
            index as int,
            e,
            final(mem).patience(),
        ),
        final(mem).undisturbed() ==> {
            let ws = old(mem).words();
            let a = off_of(handle) as int;
            &&& old(mem).undisturbed()
            &&& (r, final(mem).words()) == if index >= cap_of(ws, a) {
                (Err(GraphError::ArrayFull), ws)
            } else if !unlocked(ws, a) {
                (Err(GraphError::Busy), ws)
            } else {
                (Ok(()), item_put(ws, a, index as int, value))
            }
        },
        final(mem).undisturbed() && wf(old(mem).words()) && live_list(old(mem).words(), handle)
            && item_fits(old(mem).words(), value) ==> kept(old(mem).words(), final(mem).words()),
{
    proof {
        let ws = mem.words();
        let i = index as int;
        if wf(ws) && live_list(ws, handle) && item_fits(ws, value) && i < cap_of(
            ws,
            off_of(handle) as int,
        ) {
            lemma_item_put(ws, off_of(handle) as int, i, value);
        }
    }
    let a: u64 = hoff(handle);
    let cap: u32 = load_cap(mem, a);
    proof {
        lemma_reads_only_idle(old(mem).trace(), mem.trace());
    }
    proof {
        lemma_idle_disciplined(Op::Items { a }, old(mem).trace(), mem.trace());
    }
    if index as u64 >= cap as u64 {
        return Err(GraphError::ArrayFull);
    }
    let ghost t = mem.trace();
    let done: bool = array_extend(mem, a, index as u64, value);
    proof {
        let inner = if done {
            let count = choose|count: u64|
                ends_in_window(
                    t,
                    mem.trace(),
                    a,
                    #[trigger] extend_accesses(a, index as int, value, count),
                );
            extend_accesses(a, index as int, value, count)
        } else {
            seq![]
        };
        lemma_inside(old(mem).trace(), t, mem.trace(), a, cap, index as int, inner);
    }
    if done {
        Ok(())
    } else {
        proof {
            lemma_idle_join(old(mem).trace(), t, mem.trace());
        }
        Err(GraphError::Busy)
    }
}

/// Appends the handle `value` to an array; gives the new length.
pub fn push<M: Memory>(mem: &mut M, handle: u64, value: u64) -> (r: Result<u32, GraphError>)
    ensures
        final(mem).patience() <= old(mem).patience(),
        released(old(mem).trace(), final(mem).trace()),
        disciplined(Op::Items { a: off_of(handle) }, old(mem).trace(), final(mem).trace()),
        stays_inside(old(mem).trace(), final(mem).trace(), off_of(handle), 8),
        r != Err::<u32, GraphError>(GraphError::Busy) ==> push_made(
            old(mem).trace(),
            final(mem).trace(),
            off_of(handle),
            value,
            r,
        ),
        r matches Err(e) ==> e == GraphError::ArrayFull || e == GraphError::Busy
            && final(mem).patience() == 0 && idle(old(mem).trace(), final(mem).trace()),
        final(mem).undisturbed() ==> {
            let ws = old(mem).words();
            let a = off_of(handle) as int;
            &&& old(mem).undisturbed()
            &&& (r, final(mem).words()) == if unlocked(ws, a) {
                pushed(ws, a, value)
            } else {
                (Err(GraphError::Busy), ws)
            }
        },
        final(mem).undisturbed() && wf(old(mem).words()) && live_list(old(mem).words(), handle)
            && item_fits(old(mem).words(), value) ==> kept(old(mem).words(), final(mem).words()),
{
    proof {
        let ws = mem.words();
        if wf(ws) && live_list(ws, handle) && item_fits(ws, value) {
            lemma_pushed(ws, off_of(handle) as int, value);
        }
    }
    let a: u64 = hoff(handle);
    let seq: u64 = match claim(mem, a) {
        Some(seq) => seq,
        None => {
            proof {
                lemma_idle_disciplined(Op::Items { a }, old(mem).trace(), mem.trace());
            }
            return Err(GraphError::Busy);
        },
    };
    let ghost k = mem.trace().len() - 1;
    let ghost t1 = mem.trace();
    let len: u64 = mem.load(a + 24);
    let ghost tl = mem.trace();
    let sizes: u64 = mem.load(a + 8);
    let ghost t = mem.trace();
    let ghost hi = a + NODE_HDR + 8 * lower(sizes);
    assert(open_window(old(mem).trace(), t1, a, hi, k));
    assert(open_window(old(mem).trace(), tl, a, hi, k));
    assert(open_window(old(mem).trace(), t, a, hi, k));
    assert(released_but(old(mem).trace(), t, seq_off(a)));
    if len >= lower_half(sizes) as u64 {
        commit(mem, a, seq);
        proof {
            let inner = push_accesses(a, value, len, sizes);
            lemma_window_done(old(mem).trace(), t1, mem.trace(), a, seq, inner);
            lemma_push_inside(old(mem).trace(), t1, mem.trace(), a, seq, value, len, sizes);
        }
        assert(mem.undisturbed() ==> mem.words() =~= touched(old(mem).words(), a as int));
        return Err(GraphError::ArrayFull);
    }
    mem.store(a + NODE_HDR + 8 * len, value);
    let ghost t = mem.trace();
    assert(open_window(old(mem).trace(), t, a, hi, k));
    mem.store(a + 24, len + 1);
    let ghost t = mem.trace();
    assert(open_window(old(mem).trace(), t, a, hi, k));
    assert(released_but(old(mem).trace(), t, seq_off(a)));
    commit(mem, a, seq);
    proof {
        let inner = push_accesses(a, value, len, sizes);
        lemma_window_done(old(mem).trace(), t1, mem.trace(), a, seq, inner);
        lemma_push_inside(old(mem).trace(), t1, mem.trace(), a, seq, value, len, sizes);
    }
    assert(mem.undisturbed() ==> mem.words() =~= item_put(
        old(mem).words(),
        a as int,
        len as int,
        value,
    ));
    Ok((len + 1) as u32)
}

/// Empties slot `index` of an array, which keeps its length.
pub fn delete_index<M: Memory>(mem: &mut M, handle: u64, index: usize) -> (r: Result<
    bool,
    GraphError,
>)
    ensures
        final(mem).patience() <= old(mem).patience(),
        released(old(mem).trace(), final(mem).trace()),
        disciplined(Op::Items { a: off_of(handle) }, old(mem).trace(), final(mem).trace()),
        stays_inside(old(mem).trace(), final(mem).trace(), off_of(handle), 8),
        r != Ok::<bool, GraphError>(false),
        r is Ok ==> ends_in_window(
            old(mem).trace(),
            final(mem).trace(),
            off_of(handle),
            seq![store(item_word(off_of(handle), index as int), H_INVALID)],
        ),
        r matches Err(e) ==> idle(old(mem).trace(), final(mem).trace()) && index_refused(
            old(mem).trace(),
            final(mem).trace(),
            off_of(handle),
            index as int,
            e,
            final(mem).patience(),
        ),
        final(mem).undisturbed() ==> {
            let ws = old(mem).words();
            let a = off_of(handle) as int;
            &&& old(mem).undisturbed()
            &&& (r, final(mem).words()) == if index >= cap_of(ws, a) {
                (Err(GraphError::ArrayFull), ws)
            } else if !unlocked(ws, a) {
                (Err(GraphError::Busy), ws)
            } else {
                (Ok(true), item_removed(ws, a, index as int))
            }
        },
        final(mem).undisturbed() && wf(old(mem).words()) && live_list(old(mem).words(), handle)
            ==> kept(old(mem).words(), final(mem).words()),
{
    proof {
        let ws = mem.words();
        if wf(ws) && live_list(ws, handle) && index < cap_of(ws, off_of(handle) as int) {
            lemma_item_removed(ws, off_of(handle) as int, index as int);
        }
    }
    let a: u64 = hoff(handle);
    let cap: u32 = load_cap(mem, a);
    let ghost t = mem.trace();
    proof {
        lemma_reads_only_idle(old(mem).trace(), t);
    }
    proof {
        lemma_idle_disciplined(Op::Items { a }, old(mem).trace(), t);
    }
    if index as u64 >= cap as u64 {
        return Err(GraphError::ArrayFull);
    }
    let done: bool = array_write(mem, a, index as u64, H_INVALID);
    proof {
        let inner = seq![store(item_word(a, index as int), H_INVALID)];
        lemma_inside(old(mem).trace(), t, mem.trace(), a, cap, index as int, inner);
    }
    if done {
        Ok(true)
    } else {
        proof {
            lemma_idle_join(old(mem).trace(), t, mem.trace());
        }
        Err(GraphError::Busy)
    }
}

} // verus!
