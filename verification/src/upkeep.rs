//! What holds at every moment while threads call the library on one region.
//!
//! A region is in order, and then any number of threads make calls, each at its own pace, on the
//! containers that the region holds at the beginning and on those that they make. The nodes stand
//! where they are, every change of one is made by the thread that holds its version, and what is a
//! key does not change.
use crate::arena::{
    takes, FREE_EMPTY, OFF_BUMP, OFF_CAPACITY, OFF_FREE, OFF_LOCK, OFF_ROOT, SIZE_HEADER,
};
use crate::discipline::{
    free_found, in_block, in_run, lemma_open_block, no_root, open_block, proper, run_on, writes, Op,
};
use crate::history::{
    after, answers, changes, claim_of, coherent, lemma_after_len, lemma_effect, lemma_place,
    lemma_thread_grows, lemma_thread_prefix, of_thread, place, Step,
};
use crate::layout::{
    bump_of, cap_of, key_at, lemma_node, lemma_nodes_apart, slot_off, table_kind, tag_of, val_at,
    wf,
};
use crate::memory::{in_words, word, Event};
use crate::node::{node_header, NODE_HDR};
use crate::sharing::header_in_order;
use crate::standing::{
    goes_to, is_value, key_fits, lemma_made_spot, lemma_same_birth, lemma_spot_earlier,
    lemma_takes_apart, lemma_thread_extends, made_spot, stands, value_fits, Spot,
};
use crate::trace::{bumped, loads, marks, seen, seq_off};
use crate::value::{container_kind, KIND_ARRAY, KIND_STR, OFFSET_LIMIT};
use crate::words::{lower, upper};
use vstd::prelude::*;

verus! {

/// After the history `h` the operation is about a container that stands.
pub open spec fn op_fits(ws: Seq<u64>, h: Seq<Step>, op: Op) -> bool {
    match op {
        Op::Keys { c, child } => {
            &&& exists|s: Spot| #[trigger] stands(ws, h, s) && s.n == c && table_kind(s.kind)
            &&& child matches Some(g) ==> value_fits(ws, h, g)
        },
        Op::Items { a } => exists|s: Spot| #[trigger]
            stands(ws, h, s) && s.n == a && s.kind == KIND_ARRAY,
        Op::Nothing => true,
    }
}

/// Access `i` of thread `p` is in order for the operation `op`, which began with access `b` of the
/// thread, on a container that stood then.
pub open spec fn in_call(ws: Seq<u64>, h: Seq<Step>, p: int, i: int, op: Op, b: int) -> bool {
    let t = of_thread(h, p);
    &&& 0 <= b <= i < t.len()
    &&& op_fits(ws, h.take(place(h, p, b)), op)
    &&& proper(op, t.take(b), t.take(i), t[i])
}

/// Access `i` of thread `p` is part of a call.
pub open spec fn called(ws: Seq<u64>, h: Seq<Step>, p: int, i: int) -> bool {
    exists|op: Op, b: int| #[trigger] in_call(ws, h, p, i, op, b)
}

/// The accesses of all threads are parts of calls. The region `ws` is in order at the beginning.
pub open spec fn all_call(ws: Seq<u64>, h: Seq<Step>) -> bool {
    &&& wf(ws)
    &&& coherent(ws, h)
    &&& forall|p: int, i: int|
        0 <= i < of_thread(h, p).len() ==> #[trigger] called(ws, h, p, i)
}

/// An access that a thread has made is where it is.
pub proof fn lemma_same_place(h: Seq<Step>, p: int, b: int, j: int)
    requires
        0 <= j <= h.len(),
        0 <= b < of_thread(h.take(j), p).len(),
    ensures
        place(h.take(j), p, b) == place(h, p, b),
    decreases h.len(),
{
    if j < h.len() {
        let g = h.drop_last();
        assert(g.take(j) =~= h.take(j));
        lemma_thread_prefix(g, p, j);
        lemma_same_place(g, p, b, j);
    } else {
        assert(h.take(j) =~= h);
    }
}

/// A history of calls was one at every moment.
pub proof fn lemma_all_call_take(ws: Seq<u64>, h: Seq<Step>, j: int)
    requires
        all_call(ws, h),
        0 <= j <= h.len(),
    ensures
        all_call(ws, h.take(j)),
{
    let g = h.take(j);
    lemma_coherent_take(ws, h, j);
    assert forall|p: int, i: int| 0 <= i < of_thread(g, p).len() implies #[trigger] called(
        ws,
        g,
        p,
        i,
    ) by {
        lemma_thread_prefix(h, p, j);
        assert(called(ws, h, p, i));
        let (op, b) = choose|op: Op, b: int| #[trigger] in_call(ws, h, p, i, op, b);
        let t = of_thread(h, p);
        let u = of_thread(g, p);
        lemma_same_place(h, p, b, j);
        lemma_place(ws, g, p, b);
        assert(g.take(place(g, p, b)) =~= h.take(place(h, p, b)));
        assert(u[i] == t[i]);
        assert(u.take(i) =~= t.take(i));
        assert(u.take(b) =~= t.take(b));
        assert(in_call(ws, g, p, i, op, b));
    }
}

pub proof fn lemma_coherent_take(ws: Seq<u64>, h: Seq<Step>, j: int)
    requires
        coherent(ws, h),
        0 <= j <= h.len(),
    ensures
        coherent(ws, h.take(j)),
    decreases h.len(),
{
    if j == h.len() {
        assert(h.take(j) =~= h);
    } else {
        lemma_coherent_take(ws, h.drop_last(), j);
        assert(h.drop_last().take(j) =~= h.take(j));
    }
}

// What holds at a moment.

/// Nothing has been freed, and what is in use lies in the region, which is as large as it was.
pub open spec fn header_holds(ws: Seq<u64>, xs: Seq<u64>) -> bool {
    &&& word(xs, OFF_FREE as int) == FREE_EMPTY
    &&& word(xs, OFF_CAPACITY as int) == word(ws, OFF_CAPACITY as int)
    &&& bump_of(ws) <= word(xs, OFF_BUMP as int) <= word(ws, OFF_CAPACITY as int)
    &&& word(xs, OFF_BUMP as int) % 8 == 0
}

/// Behind what is in use there is nothing.
pub open spec fn rest_zero(xs: Seq<u64>) -> bool {
    forall|a: int| word(xs, OFF_BUMP as int) <= a ==> #[trigger] word(xs, a) == 0
}

/// The node `s` lies where it may, and has the kind and the capacity that it had.
pub open spec fn spot_holds(xs: Seq<u64>, s: Spot) -> bool {
    &&& SIZE_HEADER <= s.n
    &&& s.n % 8 == 0
    &&& s.room() % 8 == 0
    &&& s.end() <= word(xs, OFF_BUMP as int)
    &&& tag_of(xs, s.n as int) == s.kind
    &&& cap_of(xs, s.n as int) == s.cap
    &&& s.kind == KIND_STR ==> node_header(xs, s.n as int).store <= s.cap
    &&& !container_kind(s.kind) && s.kind != KIND_STR ==> s.cap >= 8
}

/// The slots of the node `s`, if it is an object or map, hold what may be there.
pub open spec fn slots_hold(ws: Seq<u64>, h: Seq<Step>, s: Spot) -> bool {
    let xs = after(ws, h);
    table_kind(s.kind) ==> forall|i: int|
        0 <= i < s.cap ==> key_fits(ws, h, #[trigger] key_at(xs, s.n as int, i)) && value_fits(
            ws,
            h,
            val_at(xs, s.n as int, i),
        )
}

/// Its maker has not gone on writing to the node `s` when it was complete.
pub open spec fn sealed(t: Seq<Event>, s: Spot) -> bool {
    s.d > 0 && t.len() > s.d ==> !in_block(t[s.d], s.n, s.room() as u64)
}

/// With access `i` the thread took the block of `n` bytes at `b`, and has done nothing since but
/// make a node there.
pub open spec fn taken(t: Seq<Event>, i: int, b: u64, n: u64) -> bool {
    &&& 0 <= i < t.len()
    &&& takes(t[i], b, n)
    &&& t.len() > i + 1 ==> writes(t[i + 1], OFF_LOCK)
    &&& forall|j: int| i + 2 <= j < t.len() ==> in_block(#[trigger] t[j], b, n)
}

/// The node that thread `p` makes in the block that it took with access `i` is not complete.
pub open spec fn unfinished(t: Seq<Event>, p: int, i: int) -> bool {
    forall|s: Spot| #[trigger] made_spot(t, s) && s.p == p ==> s.born() != i
}

/// The block of `n` bytes at `b` holds what the thread has written since it took it, with access
/// `i`, and nothing else.
pub open spec fn run_holds(xs: Seq<u64>, t: Seq<Event>, i: int, b: u64, n: u64) -> bool {
    &&& b + n <= word(xs, OFF_BUMP as int)
    &&& forall|j: int|
        i + 2 <= j < t.len() ==> (#[trigger] t[j] matches Event::Store { off, val } ==> word(
            xs,
            off as int,
        ) == val)
    &&& forall|a: int|
        b <= a < b + n && (forall|j: int| i + 2 <= j < t.len() ==> !changes(#[trigger] t[j], a))
            ==> #[trigger] word(xs, a) == 0
    &&& forall|j: int|
        i + 2 <= j < t.len() ==> (#[trigger] t[j])->Store_off <= t.last()->Store_off
}

/// What the calls rest on holds after the history `h`.
pub open spec fn in_force(ws: Seq<u64>, h: Seq<Step>) -> bool {
    let xs = after(ws, h);
    &&& header_holds(ws, xs)
    &&& rest_zero(xs)
    &&& forall|s: Spot| #[trigger]
        stands(ws, h, s) ==> spot_holds(xs, s) && slots_hold(ws, h, s) && sealed(
            of_thread(h, s.p),
            s,
        )
    &&& forall|p: int, i: int, b: u64, n: u64| #[trigger]
        taken(of_thread(h, p), i, b, n) && unfinished(of_thread(h, p), p, i) ==> run_holds(
            xs,
            of_thread(h, p),
            i,
            b,
            n,
        )
}

// What an access does.

/// `val` may be written to the word at `off` of the node `s`, with the last access of `h`.
pub open spec fn node_word(ws: Seq<u64>, h: Seq<Step>, s: Spot, off: int, val: u64) -> bool {
    let n = s.n as int;
    if table_kind(s.kind) {
        off == n + 24 || exists|i: int|
            0 <= i < s.cap && (off == #[trigger] slot_off(n, i) && key_fits(ws, h, val) || off
                == slot_off(n, i) + 8 && value_fits(ws, h, val))
    } else if s.kind == KIND_ARRAY {
        off == n + 24 || n + NODE_HDR <= off < s.end()
    } else {
        n + NODE_HDR <= off < s.end() || off == n + 8 && lower(val) == s.cap && upper(val) <= s.cap
    }
}

/// With the last access of `h` a thread claims the node `s`, or has claimed it, and releases it or
/// writes what may be written.
pub open spec fn changes_node(ws: Seq<u64>, h: Seq<Step>, s: Spot) -> bool {
    let g = h.drop_last();
    &&& stands(ws, g, s)
    &&& is_value(ws, g, s)
    &&& match h.last().event {
        Event::Load { .. } => false,
        Event::Cas { .. } => marks(h.last().event, seq_off(s.n)),
        Event::Store { off, val } => claim_of(
            of_thread(g, h.last().thread),
            seq_off(s.n),
        ) matches Some(q) && if off == s.n + 16 {
            val == bumped(q)
        } else {
            node_word(ws, h, s, off as int, val)
        },
    }
}

/// The last access of `h` changes nothing but what allocating and setting the root ask for, a block
/// in which the thread makes a node, or one node that stands.
pub open spec fn in_bounds(ws: Seq<u64>, h: Seq<Step>) -> bool {
    match h.last().event {
        Event::Load { .. } => true,
        Event::Cas { off, current, new, done } => done ==> {
            ||| off == OFF_LOCK
            ||| off == OFF_BUMP && current <= new <= word(ws, OFF_CAPACITY as int) && (new
                - current) % 8 == 0
            ||| off == OFF_ROOT && no_root(current) && !no_root(new)
            ||| exists|s: Spot| #[trigger] changes_node(ws, h, s)
        },
        Event::Store { off, .. } => {
            ||| off == OFF_LOCK
            ||| in_run(Seq::empty(), of_thread(h.drop_last(), h.last().thread), off)
            ||| exists|s: Spot| #[trigger] changes_node(ws, h, s)
        },
    }
}

/// What the calls rest on holds at all moments of the history, and its accesses change nothing else
/// than they may.
pub open spec fn upheld(ws: Seq<u64>, h: Seq<Step>) -> bool {
    &&& wf(ws)
    &&& coherent(ws, h)
    &&& forall|j: int| 0 <= j <= h.len() ==> in_force(ws, #[trigger] h.take(j))
    &&& forall|j: int| 0 < j <= h.len() ==> in_bounds(ws, #[trigger] h.take(j))
}

/// It holds at the last moment.
pub proof fn lemma_now(ws: Seq<u64>, h: Seq<Step>)
    requires
        upheld(ws, h),
    ensures
        in_force(ws, h),
        after(ws, h).len() == ws.len(),
        bump_of(ws) <= 8 * ws.len(),
        SIZE_HEADER <= bump_of(ws),
        word(ws, OFF_CAPACITY as int) < OFFSET_LIMIT,
        word(ws, OFF_CAPACITY as int) < 8 * ws.len() + 8,
        in_words(ws, OFF_BUMP as int),
{
    reveal(wf);
    assert(h.take(h.len() as int) =~= h);
    assert(in_force(ws, h.take(h.len() as int)));
    lemma_after_len(ws, h);
}

pub proof fn lemma_upheld_take(ws: Seq<u64>, h: Seq<Step>, j: int)
    requires
        upheld(ws, h),
        0 <= j <= h.len(),
    ensures
        upheld(ws, h.take(j)),
{
    let g = h.take(j);
    lemma_coherent_take(ws, h, j);
    assert forall|i: int| 0 <= i <= g.len() implies in_force(ws, #[trigger] g.take(i)) by {
        assert(g.take(i) =~= h.take(i));
    }
    assert forall|i: int| 0 < i <= g.len() implies in_bounds(ws, #[trigger] g.take(i)) by {
        assert(g.take(i) =~= h.take(i));
    }
}

/// The history up to access `j` of thread `p`.
pub open spec fn before(h: Seq<Step>, p: int, j: int) -> Seq<Step> {
    h.take(place(h, p, j))
}

/// The moment of an access.
pub proof fn lemma_saw(ws: Seq<u64>, h: Seq<Step>, p: int, j: int)
    requires
        upheld(ws, h),
        0 <= j < of_thread(h, p).len(),
    ensures
        0 <= place(h, p, j) < h.len(),
        upheld(ws, before(h, p, j)),
        in_force(ws, before(h, p, j)),
        after(ws, before(h, p, j)).len() == ws.len(),
        answers(after(ws, before(h, p, j)), of_thread(h, p)[j]),
        of_thread(before(h, p, j), p) == of_thread(h, p).take(j),
        ({
            let x = h.take(place(h, p, j) + 1);
            &&& in_bounds(ws, x)
            &&& x.drop_last() == before(h, p, j)
            &&& x.last() == (Step { thread: p, event: of_thread(h, p)[j] })
            &&& upheld(ws, x)
        }),
{
    lemma_place(ws, h, p, j);
    let k = place(h, p, j);
    lemma_upheld_take(ws, h, k);
    lemma_upheld_take(ws, h, k + 1);
    lemma_now(ws, h.take(k));
    lemma_thread_prefix(h, p, k);
    assert(h.take(k + 1).drop_last() =~= h.take(k));
    assert(in_bounds(ws, h.take(k + 1)));
}

/// What an access in bounds does to the header is in order.
pub proof fn lemma_header_in_order(ws: Seq<u64>, h: Seq<Step>)
    requires
        upheld(ws, h),
        h.len() > 0,
    ensures
        header_in_order(h.last().event),
{
    assert(h.take(h.len() as int) =~= h);
    assert(in_bounds(ws, h.take(h.len() as int)));
    let g = h.drop_last();
    assert(g =~= h.take(h.len() - 1));
    lemma_upheld_take(ws, h, h.len() - 1);
    lemma_now(ws, g);
    let e = h.last().event;
    if exists|s: Spot| #[trigger] changes_node(ws, h, s) {
        let s = choose|s: Spot| #[trigger] changes_node(ws, h, s);
        assert(spot_holds(after(ws, g), s));
        if let Event::Store { off, val } = e {
            if off != s.n + 16 {
                lemma_node_word(ws, h, s, off as int, val);
            }
        }
    }
    if let Event::Store { off, .. } = e {
        let t = of_thread(g, h.last().thread);
        if in_run(Seq::empty(), t, off) {
            let (i, b, n) = choose|i: int, b: u64, n: u64|
                Seq::<Event>::empty().len() <= i && #[trigger] run_on(t, i, b, n, off);
            lemma_saw(ws, g, h.last().thread, i);
        }
    }
}

/// All that has been done to the header is in order.
pub proof fn lemma_all_in_order(ws: Seq<u64>, h: Seq<Step>)
    requires
        upheld(ws, h),
    ensures
        forall|k: int| 0 <= k < h.len() ==> header_in_order((#[trigger] h[k]).event),
{
    assert forall|k: int| 0 <= k < h.len() implies header_in_order((#[trigger] h[k]).event) by {
        lemma_upheld_take(ws, h, k + 1);
        lemma_header_in_order(ws, h.take(k + 1));
    }
}

/// What is written to a node lies in it.
pub proof fn lemma_node_word(ws: Seq<u64>, h: Seq<Step>, s: Spot, off: int, val: u64)
    requires
        node_word(ws, h, s, off, val),
        NODE_HDR <= s.room(),
    ensures
        s.n < off < s.end(),
        off != s.n + 16,
{
    if table_kind(s.kind) && off != s.n + 24 {
        let i = choose|i: int|
            0 <= i < s.cap && (off == #[trigger] slot_off(s.n as int, i) && key_fits(ws, h, val) || off
                == slot_off(s.n as int, i) + 8 && value_fits(ws, h, val));
    }
}

// Nodes and blocks lie apart.

/// The block that a thread has taken lies behind the nodes of the beginning.
pub proof fn lemma_taken_behind(ws: Seq<u64>, h: Seq<Step>, p: int, i: int, b: u64, n: u64)
    requires
        upheld(ws, h),
        0 <= i < of_thread(h, p).len(),
        takes(of_thread(h, p)[i], b, n),
    ensures
        bump_of(ws) <= b,
        b % 8 == 0,
        b + n <= word(after(ws, h), OFF_BUMP as int),
{
    lemma_saw(ws, h, p, i);
    lemma_place(ws, h, p, i);
    let k = place(h, p, i);
    lemma_all_in_order(ws, h);
    lemma_now(ws, h);
    lemma_upheld_take(ws, h, k + 1);
    lemma_now(ws, h.take(k + 1));
    lemma_effect(after(ws, before(h, p, i)), of_thread(h, p)[i], OFF_BUMP as int);
    lemma_bump_later(ws, h, k + 1);
}

/// What is in use only becomes more.
proof fn lemma_bump_later(ws: Seq<u64>, h: Seq<Step>, j: int)
    requires
        upheld(ws, h),
        0 <= j <= h.len(),
    ensures
        word(after(ws, h.take(j)), OFF_BUMP as int) <= word(after(ws, h), OFF_BUMP as int),
    decreases h.len() - j,
{
    if j == h.len() {
        assert(h.take(j) =~= h);
    } else {
        lemma_bump_later(ws, h, j + 1);
        lemma_upheld_take(ws, h, j + 1);
        lemma_header_in_order(ws, h.take(j + 1));
        assert(h.take(j + 1).drop_last() =~= h.take(j));
        lemma_upheld_take(ws, h, j);
        lemma_now(ws, h.take(j));
        let e = h[j].event;
        lemma_effect(after(ws, h.take(j)), e, OFF_BUMP as int);
        lemma_coherent_take(ws, h, j + 1);
    }
}

/// Two nodes that stand are one, or lie apart.
#[verifier::rlimit(40)]
pub proof fn lemma_spots_apart(ws: Seq<u64>, h: Seq<Step>, s: Spot, r: Spot)
    requires
        upheld(ws, h),
        stands(ws, h, s),
        stands(ws, h, r),
    ensures
        s == r || s.end() <= r.n || r.end() <= s.n,
{
    lemma_now(ws, h);
    lemma_all_in_order(ws, h);
    if s.d == 0 && r.d == 0 {
        if s.n != r.n {
            lemma_nodes_apart(ws, s.n as int, r.n as int);
        }
    } else if s.d == 0 {
        let t = of_thread(h, r.p);
        lemma_made_spot(t, r);
        lemma_taken_behind(ws, h, r.p, r.born(), r.n, r.room() as u64);
        lemma_node(ws, s.n as int);
    } else if r.d == 0 {
        let t = of_thread(h, s.p);
        lemma_made_spot(t, s);
        lemma_taken_behind(ws, h, s.p, s.born(), s.n, s.room() as u64);
        lemma_node(ws, r.n as int);
    } else {
        lemma_made_spot(of_thread(h, s.p), s);
        lemma_made_spot(of_thread(h, r.p), r);
        lemma_takes_apart(
            ws,
            h,
            s.p,
            s.born(),
            s.n,
            s.room() as u64,
            r.p,
            r.born(),
            r.n,
            r.room() as u64,
        );
        if s.p == r.p && s.born() == r.born() {
            lemma_same_birth(of_thread(h, s.p), s, r);
        }
    }
}

/// Nodes that have a word in common are one.
pub proof fn lemma_one_spot(ws: Seq<u64>, h: Seq<Step>, s: Spot, r: Spot, a: int)
    requires
        upheld(ws, h),
        stands(ws, h, s),
        stands(ws, h, r),
        s.has(a),
        r.has(a),
    ensures
        s == r,
{
    lemma_spots_apart(ws, h, s, r);
}

/// The block that a thread has taken with access `i` is that of the node `s`, or lies apart from
/// it.
pub proof fn lemma_block_apart(
    ws: Seq<u64>,
    h: Seq<Step>,
    p: int,
    i: int,
    b: u64,
    n: u64,
    s: Spot,
)
    requires
        upheld(ws, h),
        0 <= i < of_thread(h, p).len(),
        takes(of_thread(h, p)[i], b, n),
        stands(ws, h, s),
    ensures
        s.d > 0 && s.p == p && s.born() == i && s.n == b && s.room() == n || s.end() <= b || b + n
            <= s.n,
{
    lemma_now(ws, h);
    lemma_all_in_order(ws, h);
    lemma_taken_behind(ws, h, p, i, b, n);
    if s.d == 0 {
        lemma_node(ws, s.n as int);
    } else {
        lemma_made_spot(of_thread(h, s.p), s);
        lemma_takes_apart(ws, h, p, i, b, n, s.p, s.born(), s.n, s.room() as u64);
    }
}

/// A node that is complete is not made any more.
pub proof fn lemma_complete(
    ws: Seq<u64>,
    h: Seq<Step>,
    p: int,
    off: u64,
    s: Spot,
)
    requires
        upheld(ws, h),
        stands(ws, h, s),
        s.has(off as int),
    ensures
        !in_run(Seq::empty(), of_thread(h, p), off),
{
    let t = of_thread(h, p);
    if in_run(Seq::empty(), t, off) {
        let (i, b, n) = choose|i: int, b: u64, n: u64|
            Seq::<Event>::empty().len() <= i && #[trigger] run_on(t, i, b, n, off);
        lemma_now(ws, h);
        lemma_block_apart(ws, h, p, i, b, n, s);
        lemma_made_spot(t, s);
        assert(sealed(t, s));
        if t.len() > s.d {
            assert(in_block(t[s.d], b, n));
        } else {
            let j = s.d - 1;
            assert(t[j] == t.last());
            assert(t[j] matches Event::Store { off: o, .. } && o == goes_to(s, j - s.born() - 2));
        }
    }
}

/// Nobody finds a freed block.
pub proof fn lemma_none_free(ws: Seq<u64>, h: Seq<Step>, p: int)
    requires
        upheld(ws, h),
    ensures
        !free_found(of_thread(h, p)),
{
    let t = of_thread(h, p);
    if free_found(t) {
        let j = choose|j: int|
            0 <= j < t.len() && #[trigger] loads(t, j, OFF_FREE as int) && seen(t, j) != FREE_EMPTY;
        lemma_saw(ws, h, p, j);
    }
}

/// A block in which a thread makes a node is one that it has taken.
pub proof fn lemma_open_is_run(ws: Seq<u64>, h: Seq<Step>, p: int, t0: Seq<Event>, off: u64)
    requires
        upheld(ws, h),
        open_block(t0, of_thread(h, p), off),
    ensures
        in_run(Seq::empty(), of_thread(h, p), off),
{
    let t = of_thread(h, p);
    lemma_none_free(ws, h, p);
    lemma_open_block(t0, t, off);
    let (i, b, n) = choose|i: int, b: u64, n: u64| t0.len() <= i && #[trigger] run_on(t, i, b, n, off);
    assert(Seq::<Event>::empty().len() <= i && run_on(t, i, b, n, off));
}

/// A word of a node that stands, before it stood: nothing, or what its maker wrote.
#[verifier::rlimit(40)]
pub proof fn lemma_early(ws: Seq<u64>, h: Seq<Step>, s: Spot, j: int, a: int)
    requires
        upheld(ws, h),
        stands(ws, h, s),
        0 <= j <= h.len(),
        !stands(ws, h.take(j), s),
        s.has(a),
    ensures
        word(after(ws, h.take(j)), a) == 0 || exists|x: int|
            s.born() + 2 <= x < s.d && #[trigger] changes(of_thread(h, s.p)[x], a) && of_thread(
                h,
                s.p,
            )[x]->Store_val == word(after(ws, h.take(j)), a),
{
    let g = h.take(j);
    let t = of_thread(h, s.p);
    let u = of_thread(g, s.p);
    lemma_made_spot(t, s);
    lemma_upheld_take(ws, h, j);
    lemma_now(ws, g);
    lemma_thread_extends(h, s.p, j);
    assert forall|x: int| 0 <= x < u.len() implies #[trigger] t[x] == u[x] by {
        assert(t.take(u.len() as int)[x] == t[x]);
    }
    if s.d <= u.len() {
        lemma_spot_earlier(u, t, s);
    } else if u.len() <= s.born() {
        // The block has not been taken.
        lemma_saw(ws, h, s.p, s.born());
        lemma_place(ws, h, s.p, s.born());
        let k = place(h, s.p, s.born());
        if k < j {
            lemma_thread_grows(h, s.p, k, j);
        }
        lemma_upheld_take(ws, h, k);
        assert(h.take(k).take(j) =~= g);
        lemma_bump_later(ws, h.take(k), j);
    } else {
        let i = s.born();
        let n = s.room() as u64;
        assert forall|x: int| i + 2 <= x < u.len() implies in_block(#[trigger] u[x], s.n, n) by {
            assert(t[x] == u[x]);
        }
        assert(t[i] == u[i]);
        if u.len() > i + 1 {
            assert(t[i + 1] == u[i + 1]);
        }
        assert(taken(u, i, s.n, n));
        assert forall|r: Spot| #[trigger] made_spot(u, r) && r.p == s.p implies r.born() != i by {
            if r.born() == i {
                crate::standing::lemma_spot_later(u, t, r);
                lemma_same_birth(t, s, r);
                lemma_made_spot(u, r);
            }
        }
        assert(run_holds(after(ws, g), u, i, s.n, n));
        if exists|x: int| i + 2 <= x < u.len() && changes(#[trigger] u[x], a) {
            let x = choose|x: int| i + 2 <= x < u.len() && changes(#[trigger] u[x], a);
            assert(u[x] is Store);
            assert(changes(t[x], a));
        }
    }
}

} // verus!
