//! Counters: numbers under keys that are incremented as one step.
use crate::attempts::{
    backs_out, claims_last, claims_once, lemma_claims_once_then, lemma_none, lemma_once,
    lemma_quiet_builds, lemma_quiet_idle, lemma_quiet_join, quiet, unclaiming,
};
use crate::discipline::{
    builds, disciplined, finishes, known, lemma_claimed_and_finished, lemma_disciplined_join,
    lemma_disciplined_push, lemma_disciplined_start, lemma_finish_more, lemma_idle_builds,
    lemma_idle_disciplined, lemma_scalar_found, lemma_slot_known, lemma_spare,
    lemma_window_disciplined, scalar_found, scalar_word, spare, targets, Op,
};
use crate::effects::{lemma_counted, lemma_counted_up, lemma_scalar_inserted_held, lemma_scalar_put};
use crate::graph::{find_key, full_found, key_linked, lemma_looked_up, links, looked_up};
use crate::layout::{is_table, kept, lemma_node, lemma_with_scalar, live_table, seq_of, val_at, wf};
use crate::memory::{put, Event, Memory};
use crate::mutation::{
    given_back, insert_scalar, lemma_absent_linked, lemma_claim_settles, lemma_claims_first,
    lemma_full_found, lemma_slot_linked, lemma_table_unlocked, replace,
};
use crate::node::{
    claim_at, counted_once, increment_node, increment_seen, lemma_value_refused, one_increment_seen,
    unlocked, value_at, value_refused, with_scalar, NODE_HDR,
};
use crate::record::{entry_made, lemma_node_made_later, node_made, slot_written, table_full};
use crate::tables::{count_up, counted, handle_for, revalued, scalar_put, slot_of};
use crate::trace::{
    changes_nothing, extends, idle, lemma_extends_join, lemma_extends_push, lemma_extends_start,
    lemma_idle_join, lemma_reads_only_idle, lemma_uses_allocator, released, released_but, seq_off,
    uses_allocator,
};
use crate::value::{hkind, hoff, kind_of, off_of, GraphError, Scalar, Value, KIND_INT, OFFSET_LIMIT};
use vstd::prelude::*;

verus! {

broadcast use crate::trace::group_trace;

/// From `t1` to `t2` the thread incremented the counter behind `h`, to `v`, and changed nothing
/// before that.
pub open spec fn counts(t1: Seq<Event>, t2: Seq<Event>, h: u64, v: i64) -> bool {
    &&& extends(t1, t2)
    &&& increment_seen(t2, off_of(h), v)
    &&& idle(t1, t2.take(t2.len() - 4))
}

/// With the accesses up to `i` the thread looked `key` up in the object or map at `c`, and found
/// the number behind `h`; with the others it incremented that, to `v`.
pub open spec fn counts_found(
    t0: Seq<Event>,
    t: Seq<Event>,
    c: u64,
    key: Seq<char>,
    v: i64,
    i: int,
    seq: u64,
    slot: u32,
    h: u64,
) -> bool {
    &&& 0 <= i <= t.len()
    &&& looked_up(t0, t.take(i), c, key, seq, Some((slot, h)))
    &&& quiet(t0, t.take(i), c, key, None)
    &&& kind_of(h) == KIND_INT
    &&& counts(t.take(i), t, h, v)
}

/// From `t0` to `t1` the thread looked `key` up in the object or map at `c`, found no number, and
/// linked the handle `h` to it at the very version at which it had looked.
pub open spec fn newly_linked(
    t0: Seq<Event>,
    t1: Seq<Event>,
    c: u64,
    key: Seq<char>,
    h: u64,
) -> bool {
    exists|entry: Option<(u32, u64)>, i: int, k: int| #[trigger]
        links(t0, t1, c, key, h, entry, i, k) && (entry matches Some((_, vh)) ==> kind_of(vh)
            != KIND_INT)
}

/// With the accesses up to `i` the thread made a number, zero, and linked it to `key` of the
/// object or map at `c`, where there was none; with the others it incremented that, to `v`.
pub open spec fn counts_new(
    t0: Seq<Event>,
    t: Seq<Event>,
    c: u64,
    key: Seq<char>,
    v: i64,
    i: int,
    h: u64,
) -> bool {
    &&& 0 <= i <= t.len()
    &&& newly_linked(t0, t.take(i), c, key, h)
    &&& node_made(t0, t.take(i), h, Value::Int(0))
    &&& counts(t.take(i), t, h, v)
}

/// From `t0` to `t` the thread incremented the number under `key` of the object or map at `c`,
/// to `v`: the one that it had found, or a new one. Else it did nothing to the container.
pub open spec fn key_counted(
    t0: Seq<Event>,
    t: Seq<Event>,
    c: u64,
    key: Seq<char>,
    v: i64,
) -> bool {
    &&& claims_once(t0, t.take(t.len() - 4), c, key, None)
    &&& {
        ||| exists|i: int, seq: u64, slot: u32, h: u64| #[trigger]
            counts_found(t0, t, c, key, v, i, seq, slot, h)
        ||| exists|i: int, h: u64| #[trigger] counts_new(t0, t, c, key, v, i, h)
    }
}

/// Increments the counter behind `h`, and gives its new value.
fn increment_at<M: Memory>(mem: &mut M, h: u64, Ghost(c): Ghost<u64>) -> (r: Result<
    i64,
    GraphError,
>)
    requires
        scalar_found(old(mem).trace(), c, h),
        kind_of(h) == KIND_INT,
    ensures
        final(mem).patience() <= old(mem).patience(),
        released(old(mem).trace(), final(mem).trace()),
        r matches Ok(v) ==> counts(old(mem).trace(), final(mem).trace(), h, v),
        disciplined(Op::Keys { c, child: None }, old(mem).trace(), final(mem).trace()),
        r matches Err(e) ==> e == GraphError::Busy && final(mem).patience() == 0 && idle(
            old(mem).trace(),
            final(mem).trace(),
        ),
        final(mem).undisturbed() ==> old(mem).undisturbed(),
        final(mem).undisturbed() && unlocked(old(mem).words(), off_of(h) as int) ==> (
            r,
            final(mem).words(),
        ) == count_up(old(mem).words(), h),
{
    let next: Option<i64> = increment_node(mem, hoff(h));
    proof {
        let n = off_of(h);
        let hi = n + NODE_HDR + 8;
        let t0 = old(mem).trace();
        let t1 = mem.trace();
        let op = Op::Keys { c, child: None };
        if next is None {
            lemma_idle_disciplined(op, t0, t1);
        } else {
            let u = t1.take(t1.len() - 4);
            assert forall|i: int, off: u64, val: u64|
                t0.len() <= i < t1.len() - 1 && t1[i] == (Event::Store {
                    off,
                    val,
                }) implies #[trigger] targets(op, t1.take(i), n, off, val) by {
                let t = t1.take(i);
                if i < t1.len() - 4 {
                    assert(changes_nothing(u[i]));
                }
                assert(i == t1.len() - 2);
                assert(t.take(t0.len() as int) =~= t1.take(t0.len() as int));
                lemma_scalar_found(t0, t, c, h);
                assert(scalar_word(t, h, off, val));
            }
            lemma_window_disciplined(op, t0, t1, n, hi);
        }
    }
    match next {
        Some(next) => Ok(next),
        None => Err(GraphError::Busy),
    }
}

/// From `t0` to `t` the thread wrote the handle `h` of a number, zero, to slot `slot` of the
/// object or map at `c`, claimed at version `seq`, and incremented the number, to `v`.
#[verifier::opaque]
spec fn replaced_and_counted(
    t0: Seq<Event>,
    t: Seq<Event>,
    c: u64,
    slot: u32,
    seq: u64,
    h: u64,
    v: i64,
    fresh: Option<u64>,
) -> bool {
    exists|i: int|
        t0.len() <= i <= t.len() && #[trigger] slot_written(t0, t.take(i), c, slot, h, seq) && (fresh
            == Some(h) || node_made(t0, t.take(i), h, Value::Int(0))) && counts(t.take(i), t, h, v)
            && claims_last(t0, t.take(i), c)
}

/// As `replaced_and_counted`, but the number was not incremented.
#[verifier::opaque]
spec fn replaced_only(
    t0: Seq<Event>,
    t: Seq<Event>,
    c: u64,
    slot: u32,
    seq: u64,
    fresh: Option<u64>,
) -> bool {
    exists|i: int, h: u64|
        t0.len() <= i <= t.len() && #[trigger] slot_written(t0, t.take(i), c, slot, h, seq) && (fresh
            == Some(h) || node_made(t0, t.take(i), h, Value::Int(0))) && idle(t.take(i), t)
            && claims_last(t0, t.take(i), c)
}

proof fn lemma_replaced_and_counted(
    t0: Seq<Event>,
    t1: Seq<Event>,
    t2: Seq<Event>,
    c: u64,
    slot: u32,
    seq: u64,
    h: u64,
    v: i64,
    fresh: Option<u64>,
)
    requires
        t0.len() <= t1.len(),
        slot_written(t0, t1, c, slot, h, seq),
        fresh == Some(h) || node_made(t0, t1, h, Value::Int(0)),
        counts(t1, t2, h, v),
        claims_last(t0, t1, c),
    ensures
        replaced_and_counted(t0, t2, c, slot, seq, h, v, fresh),
{
    reveal(replaced_and_counted);
}

/// From `t0` to `t` the thread made a number, zero, put a slot of the object or map at `c`,
/// claimed at version `seq`, to use for it under `key`, and incremented the number, to `v`.
#[verifier::opaque]
spec fn new_and_counted(
    t0: Seq<Event>,
    t: Seq<Event>,
    c: u64,
    key: Seq<char>,
    seq: u64,
    v: i64,
) -> bool {
    exists|i: int, h: u64|
        t0.len() <= i <= t.len() && #[trigger] entry_made(t0, t.take(i), c, key, h, seq)
            && node_made(t0, t.take(i), h, Value::Int(0)) && counts(t.take(i), t, h, v)
            && unclaiming(t.take(i), t0.len() as int)
}

/// As `new_and_counted`, but the number was not incremented.
#[verifier::opaque]
spec fn new_only(t0: Seq<Event>, t: Seq<Event>, c: u64, key: Seq<char>, seq: u64) -> bool {
    exists|i: int, h: u64|
        t0.len() <= i <= t.len() && #[trigger] entry_made(t0, t.take(i), c, key, h, seq)
            && node_made(t0, t.take(i), h, Value::Int(0)) && idle(t.take(i), t) && unclaiming(
            t.take(i),
            t0.len() as int,
        )
}

/// With its accesses up to `i` the thread made a number, zero, and linked it to `key` of the object
/// or map at `c`, with the handle `h`; with the others it changed nothing.
pub open spec fn links_zero(
    t0: Seq<Event>,
    t: Seq<Event>,
    c: u64,
    key: Seq<char>,
    i: int,
    h: u64,
) -> bool {
    &&& 0 <= i <= t.len()
    &&& claims_once(t0, t.take(i), c, key, None)
    &&& key_linked(t0, t.take(i), c, key, h)
    &&& node_made(t0, t.take(i), h, Value::Int(0))
    &&& idle(t.take(i), t)
}

/// From `t0` to `t` the thread linked a new number, zero, to `key` of the object or map at `c`, but
/// did not increment it.
pub open spec fn zero_left(t0: Seq<Event>, t: Seq<Event>, c: u64, key: Seq<char>) -> bool {
    exists|i: int, h: u64| #[trigger] links_zero(t0, t, c, key, i, h)
}

proof fn lemma_new_and_counted(
    t0: Seq<Event>,
    t1: Seq<Event>,
    t2: Seq<Event>,
    c: u64,
    key: Seq<char>,
    seq: u64,
    h: u64,
    v: i64,
)
    requires
        t0.len() <= t1.len(),
        entry_made(t0, t1, c, key, h, seq),
        node_made(t0, t1, h, Value::Int(0)),
        counts(t1, t2, h, v),
        unclaiming(t1, t0.len() as int),
    ensures
        new_and_counted(t0, t2, c, key, seq, v),
        ends_with_increment(t2, v),
{
    reveal(new_and_counted);
    assert(entry_made(t0, t2.take(t1.len() as int), c, key, h, seq));
}

/// A number that was found and counted up.
proof fn lemma_counts_found(
    t0: Seq<Event>,
    t1: Seq<Event>,
    t2: Seq<Event>,
    t3: Seq<Event>,
    c: u64,
    key: Seq<char>,
    seq: u64,
    slot: u32,
    h: u64,
    v: i64,
)
    requires
        t0.len() <= t1.len(),
        looked_up(t1, t2, c, key, seq, Some((slot, h))),
        kind_of(h) == KIND_INT,
        counts(t2, t3, h, v),
        t0.len() <= t2.len(),
        quiet(t0, t2, c, key, None),
    ensures
        key_counted(t0, t3, c, key, v),
{
    lemma_none(t0, t2, c, key, None);
    lemma_claims_once_then(t0, t2, t3.take(t3.len() - 4), c, key, None);
    lemma_looked_up(t0, t1, t2, c, key, seq, Some((slot, h)));
    assert(counts_found(t0, t3, c, key, v, t2.len() as int, seq, slot, h));
}

/// A number that took the place of something else and was counted up.
proof fn lemma_counts_instead(
    t0: Seq<Event>,
    t1: Seq<Event>,
    t2: Seq<Event>,
    t3: Seq<Event>,
    c: u64,
    key: Seq<char>,
    seq: u64,
    slot: u32,
    vh: u64,
    h: u64,
    v: i64,
    fresh: Option<u64>,
)
    requires
        t0.len() <= t1.len() <= t2.len(),
        looked_up(t1, t2, c, key, seq, Some((slot, vh))),
        kind_of(vh) != KIND_INT,
        extends(t2, t3),
        replaced_and_counted(t2, t3, c, slot, seq, h, v, fresh),
        fresh matches Some(f) ==> node_made(t0, t2, f, Value::Int(0)),
        quiet(t0, t2, c, key, None),
    ensures
        key_counted(t0, t3, c, key, v),
{
    reveal(replaced_and_counted);
    let zero = Value::Int(0);
    let i = choose|i: int|
        t2.len() <= i <= t3.len() && #[trigger] slot_written(t2, t3.take(i), c, slot, h, seq) && (
        fresh == Some(h) || node_made(t2, t3.take(i), h, zero)) && counts(t3.take(i), t3, h, v)
            && claims_last(t2, t3.take(i), c);
    let t = t3.take(i);
    assert(t.take(t2.len() as int) =~= t3.take(t2.len() as int));
    lemma_once(t0, t2, t, c, key, None, i - 3);
    lemma_claims_once_then(t0, t, t3.take(t3.len() - 4), c, key, None);
    lemma_slot_linked(t0, t1, t2, t, c, slot, vh, seq, key, h);
    lemma_extends_start(t);
    if fresh == Some(h) {
        lemma_node_made_later(t0, t0, t2, t, h, zero);
    } else {
        lemma_node_made_later(t0, t2, t, t, h, zero);
    }
    assert(counts_new(t0, t3, c, key, v, i, h));
}

/// A new number that was counted up.
proof fn lemma_counts_new(
    t0: Seq<Event>,
    t1: Seq<Event>,
    t2: Seq<Event>,
    t3: Seq<Event>,
    t4: Seq<Event>,
    c: u64,
    key: Seq<char>,
    seq: u64,
    v: i64,
)
    requires
        t0.len() <= t1.len() <= t2.len(),
        looked_up(t1, t2, c, key, seq, None),
        t3 == t2.push(
            Event::Cas { off: seq_off(c), current: seq, new: (seq + 1) as u64, done: true },
        ),
        seq % 2 == 0,
        extends(t3, t4),
        new_and_counted(t3, t4, c, key, seq, v),
        quiet(t0, t2, c, key, None),
    ensures
        key_counted(t0, t4, c, key, v),
{
    reveal(new_and_counted);
    let zero = Value::Int(0);
    let (i, h) = choose|i: int, h: u64|
        t3.len() <= i <= t4.len() && #[trigger] entry_made(t3, t4.take(i), c, key, h, seq)
            && node_made(t3, t4.take(i), h, zero) && counts(t4.take(i), t4, h, v) && unclaiming(
            t4.take(i),
            t3.len() as int,
        );
    let t = t4.take(i);
    assert(t.take(t3.len() as int) =~= t4.take(t3.len() as int));
    lemma_claims_first(t2, t3, t, c, seq);
    lemma_claim_settles(t0, t2, t, c, key, None, seq, false);
    lemma_claims_once_then(t0, t, t4.take(t4.len() - 4), c, key, None);
    lemma_absent_linked(t0, t1, t2, t, c, seq, key, h);
    lemma_extends_start(t);
    lemma_node_made_later(t0, t3, t, t, h, zero);
    assert(counts_new(t0, t4, c, key, v, i, h));
}

/// A number that took the place of something else, but was not counted up, is left at zero.
proof fn lemma_zero_instead(
    t0: Seq<Event>,
    t1: Seq<Event>,
    t2: Seq<Event>,
    t3: Seq<Event>,
    c: u64,
    key: Seq<char>,
    seq: u64,
    slot: u32,
    vh: u64,
    fresh: Option<u64>,
)
    requires
        t0.len() <= t1.len() <= t2.len(),
        looked_up(t1, t2, c, key, seq, Some((slot, vh))),
        extends(t2, t3),
        replaced_only(t2, t3, c, slot, seq, fresh),
        fresh matches Some(f) ==> node_made(t0, t2, f, Value::Int(0)),
        quiet(t0, t2, c, key, None),
    ensures
        zero_left(t0, t3, c, key),
{
    reveal(replaced_only);
    let zero = Value::Int(0);
    let (i, h) = choose|i: int, h: u64|
        t2.len() <= i <= t3.len() && #[trigger] slot_written(t2, t3.take(i), c, slot, h, seq) && (
        fresh == Some(h) || node_made(t2, t3.take(i), h, zero)) && idle(t3.take(i), t3)
            && claims_last(t2, t3.take(i), c);
    let t = t3.take(i);
    assert(t.take(t2.len() as int) =~= t3.take(t2.len() as int));
    lemma_once(t0, t2, t, c, key, None, i - 3);
    lemma_slot_linked(t0, t1, t2, t, c, slot, vh, seq, key, h);
    lemma_extends_start(t);
    if fresh == Some(h) {
        lemma_node_made_later(t0, t0, t2, t, h, zero);
    } else {
        lemma_node_made_later(t0, t2, t, t, h, zero);
    }
    assert(links_zero(t0, t3, c, key, i, h));
}

/// A new number that was not counted up is left at zero.
proof fn lemma_zero_new(
    t0: Seq<Event>,
    t1: Seq<Event>,
    t2: Seq<Event>,
    t3: Seq<Event>,
    t4: Seq<Event>,
    c: u64,
    key: Seq<char>,
    seq: u64,
)
    requires
        t0.len() <= t1.len() <= t2.len(),
        looked_up(t1, t2, c, key, seq, None),
        t3 == t2.push(
            Event::Cas { off: seq_off(c), current: seq, new: (seq + 1) as u64, done: true },
        ),
        seq % 2 == 0,
        extends(t3, t4),
        new_only(t3, t4, c, key, seq),
        quiet(t0, t2, c, key, None),
    ensures
        zero_left(t0, t4, c, key),
{
    reveal(new_only);
    let zero = Value::Int(0);
    let (i, h) = choose|i: int, h: u64|
        t3.len() <= i <= t4.len() && #[trigger] entry_made(t3, t4.take(i), c, key, h, seq)
            && node_made(t3, t4.take(i), h, zero) && idle(t4.take(i), t4) && unclaiming(
            t4.take(i),
            t3.len() as int,
        );
    let t = t4.take(i);
    assert(t.take(t3.len() as int) =~= t4.take(t3.len() as int));
    lemma_claims_first(t2, t3, t, c, seq);
    lemma_claim_settles(t0, t2, t, c, key, None, seq, false);
    lemma_absent_linked(t0, t1, t2, t, c, seq, key, h);
    lemma_extends_start(t);
    lemma_node_made_later(t0, t3, t, t, h, zero);
    assert(links_zero(t0, t4, c, key, i, h));
}

/// Puts a new counter into slot `slot` of the object or map at `c`, if the version is
/// still `seq`, and increments it. Gives the node, and the new value if the slot leads
/// to the node now.
#[verifier::rlimit(50)]
fn count_instead<M: Memory>(
    mem: &mut M,
    c: u64,
    slot: u32,
    seq: u64,
    fresh: Option<u64>,
    Ghost(key): Ghost<Seq<char>>,
) -> (r: Result<(u64, Option<i64>), GraphError>)
    requires
        c < OFFSET_LIMIT,
        seq % 2 == 0,
        known(old(mem).trace(), c, slot),
        fresh matches Some(h) ==> spare(old(mem).trace(), c, h) && kind_of(h) == KIND_INT,
    ensures
        final(mem).patience() <= old(mem).patience(),
        released(old(mem).trace(), final(mem).trace()),
        disciplined(Op::Keys { c, child: None }, old(mem).trace(), final(mem).trace()),
        r is Ok && fresh is None ==> uses_allocator(old(mem).trace(), final(mem).trace()),
        r matches Ok((h, Some(v))) ==> increment_seen(final(mem).trace(), off_of(h), v)
            && replaced_and_counted(
            old(mem).trace(),
            final(mem).trace(),
            c,
            slot,
            seq,
            h,
            v,
            fresh,
        ),
        r matches Ok((_, None)) ==> builds(old(mem).trace(), final(mem).trace()),
        r matches Err(e) ==> builds(old(mem).trace(), final(mem).trace()) || e == GraphError::Busy
            && replaced_only(old(mem).trace(), final(mem).trace(), c, slot, seq, fresh),
        r matches Ok((h, None)) ==> fresh == Some(h) || node_made(
            old(mem).trace(),
            final(mem).trace(),
            h,
            Value::Int(0),
        ),
        r matches Ok((h, None)) ==> spare(final(mem).trace(), c, h),
        r matches Err(e) ==> {
            ||| e == GraphError::Busy && final(mem).patience() == 0
            ||| e == GraphError::RegionFull && (final(mem).patience() == 0 || value_refused(
                old(mem).trace(),
                final(mem).trace(),
                Value::Int(0),
            ))
        },
        final(mem).undisturbed() ==> old(mem).undisturbed(),
        final(mem).undisturbed() && fresh is None && starts_over(
            old(mem).words(),
            c as int,
            slot as int,
            seq,
            key,
        ) ==> {
            let (next, xs) = counted(old(mem).words(), c as int, key);
            &&& final(mem).words() == xs
            &&& match next {
                Ok(v) => r matches Ok((_, Some(got))) && got == v,
                Err(e) => r == Err::<(u64, Option<i64>), GraphError>(e),
            }
        },
{
    let zero: Scalar = Scalar::Int(0);
    proof {
        if starts_over(mem.words(), c as int, slot as int, seq, key) {
            lemma_counter_replaced(mem.words(), c as int, key);
        }
    }
    let made: Result<(u64, bool), GraphError> = replace(mem, c, slot, &zero, seq, fresh);
    let ghost t1 = mem.trace();
    match made {
        Ok((h, true)) => {
            assert(scalar_found(t1, c, h));
            match increment_at(mem, h, Ghost(c)) {
                Ok(v) => {
                    proof {
                        let t0 = old(mem).trace();
                        lemma_extends_start(t0);
                        lemma_disciplined_join(Op::Keys { c, child: None }, t0, t1, mem.trace());
                        if fresh is None {
                            lemma_uses_allocator(t0, t0, t1, mem.trace());
                        }
                        lemma_replaced_and_counted(t0, t1, mem.trace(), c, slot, seq, h, v, fresh);
                    }
                    Ok((h, Some(v)))
                },
                Err(e) => {
                    proof {
                        reveal(replaced_only);
                        let t2 = mem.trace();
                        assert(t2.take(t1.len() as int) == t1);
                        assert(slot_written(
                            old(mem).trace(),
                            t2.take(t1.len() as int),
                            c,
                            slot,
                            h,
                            seq,
                        ));
                        let op = Op::Keys { c, child: None };
                        lemma_disciplined_join(op, old(mem).trace(), t1, mem.trace());
                    }
                    Err(e)
                },
            }
        },
        Ok((h, false)) => Ok((h, None)),
        Err(e) => Err(e),
    }
}

/// Slot `slot` leads from `key` to something that is no number, at version `seq`.
spec fn starts_over(ws: Seq<u64>, c: int, slot: int, seq: u64, key: Seq<char>) -> bool {
    &&& wf(ws)
    &&& is_table(ws, c)
    &&& slot_of(ws, c, key) == Some(slot)
    &&& seq_of(ws, c) == seq
    &&& kind_of(val_at(ws, c, slot)) != KIND_INT
}

/// Inserts a new counter into the object or map at `c`, the version of which has been
/// claimed at `seq`, releases the version, and increments the counter.
#[verifier::rlimit(50)]
fn count_new<M: Memory>(
    mem: &mut M,
    c: u64,
    seq: u64,
    key: &str,
    Ghost(ws): Ghost<Seq<u64>>,
) -> (r: Result<i64, GraphError>)
    requires
        c < OFFSET_LIMIT,
    ensures
        final(mem).patience() <= old(mem).patience(),
        forall|t0| #[trigger]
            released_but(t0, old(mem).trace(), seq_off(c)) ==> released(t0, final(mem).trace()),
        extends(old(mem).trace(), final(mem).trace()),
        finishes(Op::Keys { c, child: None }, old(mem).trace(), final(mem).trace(), c, seq),
        r is Ok ==> uses_allocator(old(mem).trace(), final(mem).trace()),
        r matches Ok(v) ==> ends_with_increment(final(mem).trace(), v) && new_and_counted(
            old(mem).trace(),
            final(mem).trace(),
            c,
            key@,
            seq,
            v,
        ),
        r matches Err(e) ==> {
            ||| e == GraphError::Busy && new_only(
                old(mem).trace(),
                final(mem).trace(),
                c,
                key@,
                seq,
            )
            ||| given_back(old(mem).trace(), final(mem).trace(), c, seq) && unclaiming(
                final(mem).trace(),
                old(mem).trace().len() as int,
            )
        },
        r matches Err(e) ==> {
            ||| e == GraphError::Busy && final(mem).patience() == 0
            ||| e == GraphError::KeyDisappeared && (final(mem).patience() == 0 || table_full(
                old(mem).trace(),
                final(mem).trace(),
                c,
            ) || value_refused(old(mem).trace(), final(mem).trace(), Value::Str(key@))
                || value_refused(old(mem).trace(), final(mem).trace(), Value::Int(0)))
        },
        final(mem).undisturbed() ==> old(mem).undisturbed(),
        final(mem).undisturbed() && wf(ws) && is_table(ws, c as int) && slot_of(ws, c as int, key@)
            is None && seq == seq_of(ws, c as int) && old(mem).words() == put(
            ws,
            c + 16,
            (seq + 1) as u64,
        ) ==> (r, final(mem).words()) == counted(ws, c as int, key@),
{
    let zero: Scalar = Scalar::Int(0);
    proof {
        let ci = c as int;
        if wf(ws) && is_table(ws, ci) && slot_of(ws, ci, key@) is None && seq == seq_of(ws, ci) {
            lemma_scalar_inserted_held(ws, ci, key@, zero@, (seq + 1) as u64);
            lemma_counter_inserted(ws, ci, key@);
        }
    }
    match insert_scalar(mem, c, seq, key, &zero) {
        Ok(h) => {
            let ghost t1 = mem.trace();
            proof {
                lemma_extends_start(t1);
                assert(scalar_found(t1, c, h));
            }
            let r: Result<i64, GraphError> = increment_at(mem, h, Ghost(c));
            proof {
                let t0 = old(mem).trace();
                lemma_extends_start(t0);
                lemma_extends_join(t0, t1, mem.trace());
                lemma_finish_more(Op::Keys { c, child: None }, t0, t1, mem.trace(), c, seq);
                lemma_uses_allocator(t0, t0, t1, mem.trace());
                if let Ok(v) = r {
                    lemma_new_and_counted(t0, t1, mem.trace(), c, key@, seq, h, v);
                } else {
                    reveal(new_only);
                    let t2 = mem.trace();
                    assert(t2.take(t1.len() as int) == t1);
                    assert(entry_made(t0, t2.take(t1.len() as int), c, key@, h, seq));
                }
            }
            r
        },
        Err(_) => Err(GraphError::KeyDisappeared),
    }
}

/// From `t0` to `t1` an increment of `key` of the object or map at `c` was refused, with the error
/// `e` and so much `patience` left: the thread has run out of patience, or has seen that the
/// container or the region is full. It has left the container as it was, or has run out of patience
/// when it had linked a new number, but not incremented it yet.
pub open spec fn count_refused(
    t0: Seq<Event>,
    t1: Seq<Event>,
    c: u64,
    key: Seq<char>,
    e: GraphError,
    patience: nat,
) -> bool {
    &&& backs_out(t0, t1, c, key, None) || e == GraphError::Busy && zero_left(t0, t1, c, key)
    &&& {
        ||| e == GraphError::Busy && patience == 0
        ||| e == GraphError::RegionFull && (patience == 0 || value_refused(t0, t1, Value::Int(0)))
        ||| e == GraphError::KeyDisappeared && (patience == 0 || full_found(t0, t1, c, key)
            || value_refused(t0, t1, Value::Str(key)) || value_refused(t0, t1, Value::Int(0)))
    }
}

/// Increments the number under `key` of an object or map by one, and gives the new
/// value. Creates the counter if it is absent, and only then.
#[verifier::rlimit(50)]
pub fn increment_counter<M: Memory>(mem: &mut M, handle: u64, key: &str) -> (r: Result<
    i64,
    GraphError,
>)
    ensures
        final(mem).patience() <= old(mem).patience(),
        released(old(mem).trace(), final(mem).trace()),
        disciplined(
            Op::Keys { c: off_of(handle), child: None },
            old(mem).trace(),
            final(mem).trace(),
        ),
        r matches Ok(v) ==> one_increment_seen(old(mem).trace(), final(mem).trace(), v),
        r matches Ok(v) ==> key_counted(
            old(mem).trace(),
            final(mem).trace(),
            off_of(handle),
            key@,
            v,
        ),
        r matches Err(e) ==> count_refused(
            old(mem).trace(),
            final(mem).trace(),
            off_of(handle),
            key@,
            e,
            final(mem).patience(),
        ),
        final(mem).undisturbed() ==> old(mem).undisturbed(),
        final(mem).undisturbed() && wf(old(mem).words()) && live_table(old(mem).words(), handle)
            ==> {
            &&& (r, final(mem).words()) == counted(old(mem).words(), off_of(handle) as int, key@)
            &&& kept(old(mem).words(), final(mem).words())
        },
{
    let c: u64 = hoff(handle);
    let ghost ws = mem.words();
    let ghost ci = c as int;
    let ghost guard = wf(ws) && live_table(ws, handle);
    let ghost goal = counted(ws, ci, key@);
    proof {
        if guard {
            lemma_counted(ws, ci, key@);
        }
    }
    // A node made for an earlier attempt.
    let mut fresh: Option<u64> = None;
    let ghost t0 = mem.trace();
    let ghost op = Op::Keys { c, child: None };
    proof {
        lemma_disciplined_start(op, t0);
        lemma_reads_only_idle(t0, t0);
        lemma_quiet_idle(t0, t0, c, key@, None);
    }
    loop
        invariant
            c < OFFSET_LIMIT,
            c == off_of(handle),
            ci == c,
            ws == old(mem).words(),
            guard == (wf(ws) && live_table(ws, handle)),
            goal == counted(ws, ci, key@),
            guard ==> kept(ws, goal.1),
            mem.patience() <= old(mem).patience(),
            released(old(mem).trace(), mem.trace()),
            t0 == old(mem).trace(),
            settled(t0, mem.trace()),
            op == (Op::Keys { c, child: None }),
            quiet(t0, mem.trace(), c, key@, None),
            disciplined(op, t0, mem.trace()),
            fresh matches Some(h) ==> uses_allocator(t0, mem.trace()) && node_made(
                t0,
                mem.trace(),
                h,
                Value::Int(0),
            ) && spare(mem.trace(), c, h),
            mem.undisturbed() ==> old(mem).undisturbed(),
            mem.undisturbed() && guard ==> mem.words() == ws && fresh is None,
        decreases mem.patience(),
    {
        proof {
            if guard {
                lemma_table_unlocked(ws, ci);
            }
        }
        let ghost t1 = mem.trace();
        let found: Option<(u64, Option<(u32, u64)>)> = find_key(mem, c, key);
        let ghost t2 = mem.trace();
        proof {
            lemma_settled(t0, t1, t2);
            lemma_quiet_idle(t1, t2, c, key@, None);
            lemma_quiet_join(t0, t1, t2, c, key@, None);
            lemma_none(t0, t2, c, key@, None);
            lemma_idle_disciplined(op, t1, t2);
            lemma_disciplined_join(op, t0, t1, t2);
            if fresh is Some {
                lemma_node_made_later(t0, t0, t1, t2, fresh.unwrap(), Value::Int(0));
                lemma_reads_only_idle(t1, t2);
                lemma_idle_builds(t1, t2);
                lemma_extends_start(t2);
                lemma_spare(t1, t2, t2, c, fresh.unwrap());
            }
        }
        match found {
            None => {
                return Err(GraphError::Busy);
            },
            Some((seq, Some((slot, vh)))) => {
                if hkind(vh) == KIND_INT {
                    proof {
                        if guard && mem.undisturbed() {
                            lemma_counter_existing(ws, ci, key@);
                        }
                    }
                    let r: Result<i64, GraphError> = increment_at(mem, vh, Ghost(c));
                    proof {
                        lemma_disciplined_join(op, t0, t2, mem.trace());
                        if let Ok(v) = r {
                            lemma_counted_once(t0, t2, mem.trace(), off_of(vh), v);
                            lemma_counts_found(
                                t0,
                                t1,
                                t2,
                                mem.trace(),
                                c,
                                key@,
                                seq,
                                slot,
                                vh,
                                v,
                            );
                        } else {
                            lemma_quiet_idle(t2, mem.trace(), c, key@, None);
                            lemma_quiet_join(t0, t2, mem.trace(), c, key@, None);
                            lemma_none(t0, mem.trace(), c, key@, None);
                        }
                    }
                    return r;
                }
                proof {
                    lemma_extends_start(t2);
                    lemma_slot_known(Seq::empty(), t1, t2, t2, c, slot);
                }
                // No number yet: a new node takes the place of the value.
                let r: Result<(u64, Option<i64>), GraphError> = count_instead(
                    mem,
                    c,
                    slot,
                    seq,
                    fresh,
                    Ghost(key@),
                );
                proof {
                    lemma_disciplined_join(op, t0, t2, mem.trace());
                    if builds(t2, mem.trace()) {
                        lemma_quiet_builds(t2, mem.trace(), c, key@, None);
                        lemma_quiet_join(t0, t2, mem.trace(), c, key@, None);
                        lemma_none(t0, mem.trace(), c, key@, None);
                    } else if r is Err {
                        lemma_zero_instead(t0, t1, t2, mem.trace(), c, key@, seq, slot, vh, fresh);
                    }
                    if r is Ok {
                        if fresh is None {
                            lemma_extends_start(mem.trace());
                            lemma_uses_allocator(t0, t2, mem.trace(), mem.trace());
                        } else {
                            lemma_extends_start(t0);
                            lemma_extends_join(t1, t2, mem.trace());
                            lemma_uses_allocator(t0, t0, t1, mem.trace());
                        }
                    }
                }
                match r {
                    Ok((h, Some(v))) => {
                        proof {
                            assert(counted_once(t0, mem.trace(), off_of(h), v));
                            lemma_counts_instead(
                                t0,
                                t1,
                                t2,
                                mem.trace(),
                                c,
                                key@,
                                seq,
                                slot,
                                vh,
                                h,
                                v,
                                fresh,
                            );
                        }
                        return Ok(v);
                    },
                    Ok((h, None)) => {
                        proof {
                            let zero = Value::Int(0);
                            let t3 = mem.trace();
                            if fresh == Some(h) {
                                lemma_node_made_later(t0, t0, t2, t3, h, zero);
                            } else {
                                lemma_extends_start(t3);
                                lemma_node_made_later(t0, t2, t3, t3, h, zero);
                            }
                        }
                        fresh = Some(h);
                    },
                    Err(e) => {
                        proof {
                            let t3 = mem.trace();
                            lemma_extends_start(t3);
                            lemma_value_refused(t0, t2, t3, t3, Value::Int(0));
                        }
                        return Err(e);
                    },
                }
            },
            Some((seq, None)) => {
                if claim_at(mem, c, seq) {
                    let ghost t3 = mem.trace();
                    proof {
                        lemma_extends_push(t0, t2, t3.last());
                    }
                    let r: Result<i64, GraphError> = count_new(mem, c, seq, key, Ghost(ws));
                    proof {
                        lemma_claimed_and_finished(op, t2, t3.last(), mem.trace(), c, seq);
                        lemma_disciplined_join(op, t0, t2, mem.trace());
                        if let Ok(v) = r {
                            lemma_extends_start(mem.trace());
                            lemma_uses_allocator(t0, t3, mem.trace(), mem.trace());
                            let n = choose|n: u64| #[trigger] increment_seen(mem.trace(), n, v);
                            assert(counted_once(t0, mem.trace(), n, v));
                            lemma_counts_new(t0, t1, t2, t3, mem.trace(), c, key@, seq, v);
                        } else {
                            let t4 = mem.trace();
                            lemma_claims_first(t2, t3, t4, c, seq);
                            if new_only(t3, t4, c, key@, seq) && r->Err_0 == GraphError::Busy {
                                lemma_zero_new(t0, t1, t2, t3, t4, c, key@, seq);
                            } else {
                                lemma_claim_settles(t0, t2, t4, c, key@, None, seq, true);
                            }
                            lemma_extends_start(t4);
                            lemma_value_refused(t0, t3, t4, t4, Value::Int(0));
                            lemma_value_refused(t0, t3, t4, t4, Value::Str(key@));
                            if table_full(t3, t4, c) {
                                lemma_full_found(t0, t1, t2, t4, c, seq, key@);
                            }
                        }
                    }
                    return r;
                }
                proof {
                    if fresh is Some {
                        let zero = Value::Int(0);
                        lemma_node_made_later(t0, t0, t2, mem.trace(), fresh.unwrap(), zero);
                        lemma_idle_builds(t2, mem.trace());
                        lemma_extends_start(mem.trace());
                        lemma_spare(t2, mem.trace(), mem.trace(), c, fresh.unwrap());
                    }
                    lemma_settled(t0, t2, mem.trace());
                    lemma_quiet_idle(t2, mem.trace(), c, key@, None);
                    lemma_quiet_join(t0, t2, mem.trace(), c, key@, None);
                    lemma_none(t0, mem.trace(), c, key@, None);
                    lemma_disciplined_push(op, t0, t2, mem.trace().last());
                }
            },
        }
        if !mem.pause() {
            return Err(GraphError::Busy);
        }
    }
}

/// The last accesses of `t` are the increment of a counter to `v`.
spec fn ends_with_increment(t: Seq<Event>, v: i64) -> bool {
    exists|n: u64| #[trigger] increment_seen(t, n, v)
}

/// From `t0` to `t1` the thread changed nothing, unless it made a node.
spec fn settled(t0: Seq<Event>, t1: Seq<Event>) -> bool {
    extends(t0, t1) && (idle(t0, t1) || uses_allocator(t0, t1))
}

/// Changing nothing more changes nothing.
proof fn lemma_settled(t0: Seq<Event>, t1: Seq<Event>, t2: Seq<Event>)
    requires
        settled(t0, t1),
        idle(t1, t2),
    ensures
        settled(t0, t2),
        uses_allocator(t0, t1) ==> uses_allocator(t0, t2),
{
    lemma_extends_join(t0, t1, t2);
    lemma_extends_start(t0);
    if uses_allocator(t0, t1) {
        lemma_uses_allocator(t0, t0, t1, t2);
    } else {
        lemma_idle_join(t0, t1, t2);
    }
}

/// An increment after nothing was changed.
proof fn lemma_counted_once(t0: Seq<Event>, t1: Seq<Event>, t2: Seq<Event>, n: u64, v: i64)
    requires
        settled(t0, t1),
        extends(t1, t2),
        increment_seen(t2, n, v),
        idle(t1, t2.take(t2.len() - 4)),
    ensures
        one_increment_seen(t0, t2, v),
{
    lemma_extends_join(t0, t1, t2);
    lemma_extends_start(t0);
    if uses_allocator(t0, t1) {
        lemma_uses_allocator(t0, t0, t1, t2);
    } else {
        lemma_idle_join(t0, t1, t2.take(t2.len() - 4));
    }
    assert(counted_once(t0, t2, n, v));
}

/// A number of a region that is in order can be counted up.
proof fn lemma_counter_unlocked(ws: Seq<u64>, c: int, key: Seq<char>)
    requires
        wf(ws),
        is_table(ws, c),
        slot_of(ws, c, key) is Some,
        kind_of(handle_for(ws, c, key)) == KIND_INT,
    ensures
        unlocked(ws, off_of(handle_for(ws, c, key)) as int),
{
    lemma_counted_up(ws, c, key);
    lemma_node(ws, off_of(handle_for(ws, c, key)) as int);
}

/// Counting a number up.
proof fn lemma_counter_existing(ws: Seq<u64>, c: int, key: Seq<char>)
    requires
        wf(ws),
        is_table(ws, c),
        slot_of(ws, c, key) is Some,
        kind_of(handle_for(ws, c, key)) == KIND_INT,
    ensures
        unlocked(ws, off_of(handle_for(ws, c, key)) as int),
        counted(ws, c, key) == count_up(ws, handle_for(ws, c, key)),
{
    reveal(counted);
    lemma_counter_unlocked(ws, c, key);
}

/// A counter that takes the place of a value that is no number starts at zero.
proof fn lemma_counter_replaced(ws: Seq<u64>, c: int, key: Seq<char>)
    requires
        wf(ws),
        is_table(ws, c),
        slot_of(ws, c, key) is Some,
        kind_of(handle_for(ws, c, key)) != KIND_INT,
    ensures
        match with_scalar(ws, Value::Int(0)) {
            (Some(new), w) => {
                let xs = revalued(w, c, slot_of(ws, c, key).unwrap(), new);
                &&& unlocked(xs, off_of(new) as int)
                &&& counted(ws, c, key) == count_up(xs, new)
            },
            (None, w) => counted(ws, c, key) == (Err::<i64, GraphError>(GraphError::RegionFull), w),
        },
{
    reveal(counted);
    let zero = Value::Int(0);
    if let (Some(new), w) = with_scalar(ws, zero) {
        let xs = revalued(w, c, slot_of(ws, c, key).unwrap(), new);
        lemma_scalar_put(ws, c, key, zero);
        assert(scalar_put(ws, c, key, zero) == (Ok::<(), GraphError>(()), xs));
        lemma_with_scalar(ws, zero);
        assert(handle_for(xs, c, key) == new);
        lemma_counter_unlocked(xs, c, key);
    }
}

/// A new counter starts at zero.
proof fn lemma_counter_inserted(ws: Seq<u64>, c: int, key: Seq<char>)
    requires
        wf(ws),
        is_table(ws, c),
        slot_of(ws, c, key) is None,
    ensures
        ({
            let (r, xs) = scalar_put(ws, c, key, Value::Int(0));
            match r {
                Ok(()) => {
                    let h = handle_for(xs, c, key);
                    &&& unlocked(xs, off_of(h) as int)
                    &&& counted(ws, c, key) == count_up(xs, h)
                },
                Err(_) => counted(ws, c, key) == (Err::<i64, GraphError>(
                    GraphError::KeyDisappeared,
                ), xs),
            }
        }),
{
    reveal(counted);
    let zero = Value::Int(0);
    lemma_scalar_put(ws, c, key, zero);
    let (r, xs) = scalar_put(ws, c, key, zero);
    if r is Ok {
        assert(value_at(xs, handle_for(xs, c, key)) == zero);
        lemma_counter_unlocked(xs, c, key);
    }
}

} // verus!
