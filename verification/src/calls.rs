//! Threads that call the library on one region.
//!
//! A region is in order, and then any number of threads make calls, each at its own pace, on the
//! containers that the region holds at the beginning and on those that they make. Whatever the
//! order in which their accesses follow each other, every node is changed by the thread that holds
//! its version alone, the texts of keys do not change, what is read is what was there at one
//! moment, and a mutation is one step.
use crate::arena::{odd, takes, OFF_BUMP, SIZE_HEADER};
use crate::bounds::{
    lemma_claimed_stands, lemma_has_slot, lemma_not_building, lemma_slot_read, lemma_spot_of,
    spot_of,
};
use crate::discipline::{disciplined, lemma_known, own_block, proper, Op};
use crate::graph::{
    claims_lookup, empties, found_in, in_slot, links, looked_up, looks_at, lookup, of_text,
    reads_key, text_word,
};
use crate::history::{
    after, allowed, changes, claim_of, coherent, comes_after, guarded, holds, keeps_order,
    law_lookup_holds_at_claim, law_no_torn_value, lemma_effect, lemma_place, lemma_place_order,
    lemma_thread_prefix, of_thread, orderly_from, place, several_words, Step,
};
use crate::insertion::{
    key_text_stays, law_key_is_inserted_once, law_made_node_holds, left_alone, lemma_turn,
};
use crate::layout::{cap_of, lemma_payload_len, table_kind, tag_of, wf};
use crate::linear::{
    before_last, held_to_the_end, inserts, law_delete_is_one_step, law_insert_is_one_step,
    law_link_is_one_step, lemma_found_at_claim, makes_elsewhere, makes_key, same_node, texts_stay,
};
use crate::memory::{word, Event};
use crate::node::{node_header, str_bytes, value_at, value_seen, NODE_HDR};
use crate::record::{ends_with, made_at, node_made, node_stores, slot_at, store};
use crate::sharing::header_in_order;
use crate::standing::{
    first_change, is_key, keyed, lemma_made_spot, lemma_role_later, lemma_roles_apart,
    lemma_same_birth, lemma_spot_earlier, lemma_spot_later, lemma_stands_later,
    lemma_thread_extends, made_spot, scalar_at, since, stands, Spot,
};
use crate::tables::{handle_put, key_deleted, slot_of};
use crate::trace::{claimed, claims, extends, loads, marks, seen, seq_off};
use crate::upholding::{goes_on, lemma_changes_spot, lemma_only_maker, lemma_upheld};
use crate::upkeep::{
    all_call, before, called, in_bounds, in_call, lemma_all_in_order, lemma_block_apart,
    lemma_coherent_take, lemma_early, lemma_none_free, lemma_now, lemma_saw, lemma_taken_behind,
    lemma_upheld_take, op_fits, spot_holds, taken, unfinished, upheld,
};
use crate::value::{
    handle, kind_of, law_handle_parts, lemma_handle, off_of, GraphError, Value, H_INVALID, KIND_STR,
};
use vstd::prelude::*;
use vstd::utf8::encode_utf8;

verus! {

/// The accesses of a call are parts of a call: those of thread `p` from `b` to `e`, if they kept to
/// the discipline of an operation on a container that stood at the first of them.
pub proof fn law_calls_are_called(ws: Seq<u64>, h: Seq<Step>, p: int, op: Op, b: int, e: int)
    requires
        0 <= b < e <= of_thread(h, p).len(),
        op_fits(ws, before(h, p, b), op),
        disciplined(op, of_thread(h, p).take(b), of_thread(h, p).take(e)),
    ensures
        forall|i: int| b <= i < e ==> #[trigger] called(ws, h, p, i),
{
    let t = of_thread(h, p);
    assert forall|i: int| b <= i < e implies #[trigger] called(ws, h, p, i) by {
        let u = t.take(e);
        assert(proper(op, t.take(b), u.take(i), u[i]));
        assert(u.take(i) =~= t.take(i));
        assert(in_call(ws, h, p, i, op, b));
    }
}

/// Threads that are stopped in the middle of calls have made calls.
pub proof fn law_calls_stop(ws: Seq<u64>, h: Seq<Step>, j: int)
    requires
        all_call(ws, h),
        0 <= j <= h.len(),
    ensures
        all_call(ws, h.take(j)),
{
    crate::upkeep::lemma_all_call_take(ws, h, j);
}

// The moment from which on a node stands.

/// A node that a thread has made stands since it made the last access for it.
pub(crate) proof fn lemma_since(ws: Seq<u64>, h: Seq<Step>, s: Spot)
    requires
        coherent(ws, h),
        stands(ws, h, s),
    ensures
        0 <= since(h, s) <= h.len(),
        stands(ws, h.take(since(h, s)), s),
        s.d > 0 ==> of_thread(h.take(since(h, s)), s.p).len() == s.d,
        forall|j: int| since(h, s) <= j <= h.len() ==> #[trigger] stands(ws, h.take(j), s),
        forall|j: int| 0 <= j < since(h, s) ==> !#[trigger] stands(ws, h.take(j), s),
{
    let t = of_thread(h, s.p);
    let e = since(h, s);
    if s.d > 0 {
        lemma_made_spot(t, s);
        lemma_place(ws, h, s.p, s.d - 1);
        let k = place(h, s.p, s.d - 1);
        assert(h.take(k + 1).drop_last() =~= h.take(k));
        assert(of_thread(h.take(e), s.p).len() == s.d);
        lemma_thread_extends(h, s.p, e);
        lemma_spot_earlier(of_thread(h.take(e), s.p), t, s);
        assert forall|j: int| 0 <= j < e implies !#[trigger] stands(ws, h.take(j), s) by {
            assert(h.take(e - 1).take(j) =~= h.take(j));
            lemma_thread_prefix(h.take(e - 1), s.p, j);
            if stands(ws, h.take(j), s) {
                lemma_made_spot(of_thread(h.take(j), s.p), s);
            }
        }
    }
    assert forall|j: int| e <= j <= h.len() implies #[trigger] stands(ws, h.take(j), s) by {
        assert(h.take(j).take(e) =~= h.take(e));
        lemma_stands_later(ws, h.take(j), e, s);
    }
}

/// A node that stands at the moment of an access has stood since before.
pub(crate) proof fn lemma_stood(ws: Seq<u64>, h: Seq<Step>, p: int, k: int, s: Spot)
    requires
        coherent(ws, h),
        0 <= k < of_thread(h, p).len(),
        stands(ws, before(h, p, k), s),
    ensures
        stands(ws, h, s),
        since(h, s) <= place(h, p, k),
        comes_after(h, p, since(h, s), k),
{
    lemma_place(ws, h, p, k);
    let j = place(h, p, k);
    lemma_stands_later(ws, h, j, s);
    lemma_since(ws, h, s);
    let e = since(h, s);
    assert(e <= j);
    assert(h.take(j).take(e) =~= h.take(e));
    lemma_thread_prefix(h.take(j), p, e);
}

// Guarding.

/// Whoever holds a version has claimed it.
proof fn lemma_has_claimed(t: Seq<Event>, off: u64) -> (k: int)
    requires
        claim_of(t, off) is Some,
    ensures
        0 <= k < t.len(),
        marks(t[k], off),
    decreases t.len(),
{
    if claims(t.last(), off) {
        t.len() - 1
    } else {
        lemma_has_claimed(t.drop_last(), off)
    }
}

#[verifier::rlimit(40)]
proof fn lemma_calls_orderly(ws: Seq<u64>, h: Seq<Step>, q: int, s: Spot, e: int)
    requires
        upheld(ws, h),
        stands(ws, h.take(e), s),
        0 <= e <= h.len(),
    ensures
        orderly_from(of_thread(h, q), s.n, s.end(), of_thread(h.take(e), q).len() as int),
    decreases h.len(),
{
    if h.len() == e {
        assert(h.take(e) =~= h);
    } else {
        let y = h.drop_last();
        assert(y =~= h.take(h.len() - 1));
        lemma_upheld_take(ws, h, h.len() - 1);
        assert(y.take(e) =~= h.take(e));
        lemma_calls_orderly(ws, y, q, s, e);
        if h.last().thread == q {
            let t = of_thread(y, q);
            let ev = h.last().event;
            assert(of_thread(h, q).drop_last() =~= t);
            lemma_stands_later(ws, y, e, s);
            lemma_now(ws, y);
            assert(spot_holds(after(ws, y), s));
            assert(h.take(h.len() as int) =~= h);
            assert(in_bounds(ws, h.take(h.len() as int)));
            assert(goes_on(ws, h));
            assert(allowed(claim_of(t, seq_off(s.n)), ev, s.n, s.end())) by {
                match ev {
                    Event::Load { .. } => {},
                    Event::Store { off, .. } => {
                        if s.n < off < s.end() {
                            assert(changes(ev, off as int));
                            lemma_changes_spot(ws, h, s, off as int);
                        }
                    },
                    Event::Cas { off, done, .. } => {
                        if done && s.n < off < s.end() {
                            assert(changes(ev, off as int));
                            lemma_changes_spot(ws, h, s, off as int);
                        }
                    },
                }
            }
        }
    }
}

/// Threads that call the library keep to the order at every node: whatever the calls and the order
/// of their accesses, each node is changed by the thread that holds its version alone, from the
/// moment on from which it stands.
pub proof fn law_calls_are_guarded(ws: Seq<u64>, h: Seq<Step>, s: Spot)
    requires
        all_call(ws, h),
        stands(ws, h, s),
    ensures
        guarded(ws, h, s.n, s.end(), since(h, s)),
{
    lemma_upheld(ws, h);
    lemma_since(ws, h, s);
    lemma_now(ws, h);
    let e = since(h, s);
    let g = h.take(e);
    assert(spot_holds(after(ws, h), s));
    lemma_upheld_take(ws, h, e);
    assert forall|p: int| #[trigger] keeps_order(h, p, s.n, s.end(), e) by {
        lemma_calls_orderly(ws, h, p, s, e);
        let t = of_thread(g, p);
        if claim_of(t, seq_off(s.n)) is Some {
            let k = lemma_has_claimed(t, seq_off(s.n));
            lemma_claimed_stands(ws, g, p, k, s);
            lemma_saw(ws, g, p, k);
            let j = place(g, p, k);
            assert(g.take(j) =~= h.take(j));
            assert(stands(ws, h.take(j), s));
        }
    }
    lemma_even(ws, h, s);
}

/// Nobody is writing a node when it begins to stand.
pub(crate) proof fn lemma_even(ws: Seq<u64>, h: Seq<Step>, s: Spot)
    requires
        upheld(ws, h),
        stands(ws, h, s),
    ensures
        !odd(word(after(ws, h.take(since(h, s))), s.n + 16)),
{
    lemma_since(ws, h, s);
    let e = since(h, s);
    if s.d == 0 {
        assert(h.take(0) =~= Seq::empty());
        crate::layout::lemma_node(ws, s.n as int);
    } else {
        let k = e - 1;
        let y = h.take(k);
        let x = h.take(e);
        let t = of_thread(y, s.p);
        let u = of_thread(x, s.p);
        assert(x.drop_last() =~= y);
        lemma_upheld_take(ws, h, k);
        lemma_upheld_take(ws, h, e);
        lemma_made_spot(u, s);
        lemma_now(ws, y);
        lemma_now(ws, x);
        lemma_place(ws, h, s.p, s.d - 1);
        assert(u == t.push(x.last().event));
        lemma_taken_behind(ws, x, s.p, s.born(), s.n, s.room() as u64);
        assert(!stands(ws, h.take(k), s));
        lemma_version_made(ws, x, s);
    }
}

/// The version of a node that has just been made is what its maker wrote.
#[verifier::rlimit(40)]
proof fn lemma_version_made(ws: Seq<u64>, h: Seq<Step>, s: Spot)
    requires
        h.len() > 0,
        upheld(ws, h),
        stands(ws, h, s),
        s.d > 0,
        !stands(ws, h.drop_last(), s),
    ensures
        word(after(ws, h), s.n + 16) == 0,
{
    let y = h.drop_last();
    let t = of_thread(y, s.p);
    let u = of_thread(h, s.p);
    let e = h.last().event;
    let i = s.born();
    let a = s.n + 16;
    assert(y =~= h.take(h.len() - 1));
    lemma_upheld_take(ws, h, h.len() - 1);
    lemma_made_spot(u, s);
    assert(h.last().thread == s.p);
    assert(u == t.push(e));
    assert(u.take(t.len() as int) =~= t);
    if s.d <= t.len() {
        lemma_spot_earlier(t, u, s);
    }
    assert(s.d == u.len());
    lemma_now(ws, y);
    assert(y.take(y.len() as int) =~= y);
    lemma_effect(after(ws, y), e, a);
    assert(u[s.d - 1] == e);
    lemma_taken_behind(ws, h, s.p, i, s.n, s.room() as u64);
    if changes(e, a) {
        assert(s.d - 1 == i + 4);
    } else {
        assert(h.take(y.len() as int) =~= y);
        lemma_early(ws, h, s, y.len() as int, a);
        if word(after(ws, y), a) != 0 {
            let x = choose|x: int|
                i + 2 <= x < s.d && #[trigger] changes(u[x], a) && u[x]->Store_val == word(
                    after(ws, y),
                    a,
                );
            assert(x == i + 4);
        }
    }
}

/// The nodes stay what and where they are: after any calls of any threads, each has the kind and
/// the capacity that it had, and lies in the region.
#[verifier::rlimit(60)]
#[verifier::spinoff_prover]
pub proof fn law_calls_keep_the_nodes(ws: Seq<u64>, h: Seq<Step>, j: int, s: Spot)
    requires
        all_call(ws, h),
        0 <= j <= h.len(),
        stands(ws, h.take(j), s),
    ensures
        stands(ws, h, s),
        tag_of(after(ws, h), s.n as int) == s.kind,
        cap_of(after(ws, h), s.n as int) == s.cap,
        SIZE_HEADER <= s.n,
        s.end() <= word(after(ws, h), OFF_BUMP as int) <= 8 * ws.len(),
{
    lemma_upheld(ws, h);
    lemma_stands_later(ws, h, j, s);
    lemma_now(ws, h);
    assert(spot_holds(after(ws, h), s));
}

/// Two nodes have no byte in common, those of the beginning and those that threads have made.
pub proof fn law_calls_keep_nodes_apart(ws: Seq<u64>, h: Seq<Step>, s: Spot, r: Spot)
    requires
        all_call(ws, h),
        stands(ws, h, s),
        stands(ws, h, r),
        s != r,
    ensures
        s.end() <= r.n || r.end() <= s.n,
{
    lemma_upheld(ws, h);
    crate::upkeep::lemma_spots_apart(ws, h, s, r);
}

/// The texts of keys do not change, whatever calls the threads make: from the moment on at which a
/// node is a key, each of its words stays what it is.
pub proof fn law_calls_keep_the_keys(ws: Seq<u64>, h: Seq<Step>, j: int, s: Spot, a: int)
    requires
        all_call(ws, h),
        0 <= j <= h.len(),
        stands(ws, h.take(j), s),
        is_key(ws, h.take(j), s),
        s.has(a),
    ensures
        word(after(ws, h), a) == word(after(ws, h.take(j)), a),
{
    lemma_upheld(ws, h);
    lemma_key_word(ws, h, j, s, a);
}

pub(crate) proof fn lemma_key_word(ws: Seq<u64>, h: Seq<Step>, j: int, s: Spot, a: int)
    requires
        upheld(ws, h),
        0 <= j <= h.len(),
        stands(ws, h.take(j), s),
        is_key(ws, h.take(j), s),
        s.has(a),
    ensures
        word(after(ws, h), a) == word(after(ws, h.take(j)), a),
    decreases h.len(),
{
    if j == h.len() {
        assert(h.take(j) =~= h);
    } else {
        let y = h.drop_last();
        assert(y =~= h.take(h.len() - 1));
        assert(y.take(j) =~= h.take(j));
        lemma_upheld_take(ws, h, h.len() - 1);
        lemma_key_word(ws, y, j, s, a);
        lemma_effect(after(ws, y), h.last().event, a);
        if changes(h.last().event, a) {
            lemma_stands_later(ws, y, j, s);
            lemma_role_later(ws, y, j, s);
            lemma_roles_apart(ws, y, s);
            assert(h.take(h.len() as int) =~= h);
            assert(in_bounds(ws, h.take(h.len() as int)));
            lemma_changes_spot(ws, h, s, a);
        }
    }
}

/// The words of the header that threads share are changed in order, whatever calls they make: what
/// is in use only becomes more, and a root that is there stays.
pub proof fn law_calls_keep_the_header(ws: Seq<u64>, h: Seq<Step>, i: int)
    requires
        all_call(ws, h),
        0 <= i < h.len(),
    ensures
        header_in_order(h[i].event),
{
    lemma_upheld(ws, h);
    lemma_all_in_order(ws, h);
}

/// What a thread makes lies elsewhere: the blocks that a thread is given after it has claimed a
/// node do not overlap the node.
#[verifier::rlimit(40)]
pub proof fn law_calls_make_elsewhere(ws: Seq<u64>, h: Seq<Step>, p: int, k: int, s: Spot)
    requires
        all_call(ws, h),
        stands(ws, h, s),
        0 <= k < of_thread(h, p).len(),
        marks(of_thread(h, p)[k], seq_off(s.n)),
    ensures
        makes_elsewhere(of_thread(h, p), k, s.n, s.end()),
{
    lemma_upheld(ws, h);
    lemma_now(ws, h);
    assert(spot_holds(after(ws, h), s));
    lemma_claimed_stands(ws, h, p, k, s);
    lemma_saw(ws, h, p, k);
    let t = of_thread(h, p);
    let t0 = t.take(k + 1);
    assert forall|off: u64| s.n < off < s.end() || off == seq_off(s.n) implies !#[trigger] own_block(
        t0,
        t,
        off,
    ) by {
        if own_block(t0, t, off) {
            let (b, n) = choose|b: u64, n: u64| #[trigger]
                crate::arena::block_seen(t0, t, n, b) && b <= off < b + n;
            let i = choose|i: int|
                t0.len() <= i < t.len() && (takes(#[trigger] t[i], b, n)
                    || crate::arena::finds_block(t, i, b, n));
            lemma_none_free(ws, h, p);
            if crate::arena::finds_block(t, i, b, n) {
                assert(loads(t, i, crate::arena::OFF_FREE as int));
            }
            lemma_block_apart(ws, h, p, i, b, n, s);
            if s.d > 0 && s.p == p {
                lemma_made_spot(of_thread(before(h, p, k), p), s);
            }
        }
    }
}

// Reading.

/// What has been read of the length of a text does not go beyond the node.
proof fn lemma_length_read(ws: Seq<u64>, h: Seq<Step>, s: Spot, j: int)
    requires
        upheld(ws, h),
        stands(ws, h, s),
        s.kind == KIND_STR,
        0 <= j <= h.len(),
    ensures
        node_header(after(ws, h.take(j)), s.n as int).store <= s.cap,
{
    if stands(ws, h.take(j), s) {
        lemma_upheld_take(ws, h, j);
        lemma_now(ws, h.take(j));
        assert(spot_holds(after(ws, h.take(j)), s));
    } else {
        lemma_early(ws, h, s, j, s.n + 8);
        let t = of_thread(h, s.p);
        lemma_made_spot(t, s);
        let w = word(after(ws, h.take(j)), s.n + 8);
        if w != 0 {
            let x = choose|x: int|
                s.born() + 2 <= x < s.d && #[trigger] changes(t[x], s.n + 8) && t[x]->Store_val == w;
            assert(x == s.born() + 3);
        }
    }
}

/// No torn values: what a thread reads off a scalar that stands when the read begins, while other
/// threads make any calls, is what the scalar held at one moment; if it takes up several words, at
/// a moment at which nobody was writing it.
pub proof fn law_calls_tear_no_value(
    ws: Seq<u64>,
    h: Seq<Step>,
    p: int,
    t0: Seq<Event>,
    handle: u64,
    s: Spot,
    v: Value,
)
    requires
        all_call(ws, h),
        h.len() <= u64::MAX,
        t0.len() < of_thread(h, p).len(),
        stands(ws, before(h, p, t0.len() as int), s),
        s.n == off_of(handle),
        s.kind == kind_of(handle),
        value_seen(t0, of_thread(h, p), handle, v),
    ensures
        exists|j: int|
            0 <= j <= h.len() && value_at(#[trigger] after(ws, h.take(j)), handle) == v && (
            several_words(handle) ==> !odd(word(after(ws, h.take(j)), off_of(handle) + 16)) && forall|
                q: int,
            | !#[trigger] holds(h.take(j), q, off_of(handle))),
{
    lemma_upheld(ws, h);
    lemma_stood(ws, h, p, t0.len() as int, s);
    law_calls_are_guarded(ws, h, s);
    lemma_now(ws, h);
    assert(spot_holds(after(ws, h), s));
    if kind_of(handle) == KIND_STR {
        assert forall|j: int| 0 <= j <= h.len() implies s.n + NODE_HDR + node_header(
            #[trigger] after(ws, h.take(j)),
            s.n as int,
        ).store <= s.end() by {
            lemma_length_read(ws, h, s, j);
        }
    }
    if kind_of(handle) == crate::value::KIND_BIGINT {
        lemma_bigint_room(ws, h, s);
    }
    law_no_torn_value(ws, h, p, t0, handle, s.end(), v, since(h, s));
}

/// A large number has two words.
proof fn lemma_bigint_room(ws: Seq<u64>, h: Seq<Step>, s: Spot)
    requires
        wf(ws),
        stands(ws, h, s),
        s.kind == crate::value::KIND_BIGINT,
    ensures
        s.cap >= 16,
{
    if s.d == 0 {
        crate::layout::lemma_node(ws, s.n as int);
    } else {
        let t = of_thread(h, s.p);
        let v = choose|v: Value| #[trigger] scalar_at(t, s, v);
        lemma_handle(s.kind, s.n);
        lemma_payload_len(v);
    }
}

/// What a lookup reads of a text has not changed later.
#[verifier::rlimit(50)]
proof fn lemma_text_read(
    ws: Seq<u64>,
    h: Seq<Step>,
    p: int,
    s: Spot,
    x: int,
    off: u64,
    m: int,
)
    requires
        upheld(ws, h),
        stands(ws, h, s),
        table_kind(s.kind),
        0 <= x <= m < of_thread(h, p).len(),
        loads(of_thread(h, p), x, off as int),
        looks_at(of_thread(h, p).take(x), s.n, off),
        !(s.n < off < s.end()),
    ensures
        seen(of_thread(h, p), x) == word(after(ws, before(h, p, m)), off as int),
{
    let tp = of_thread(h, p);
    let t = tp.take(x);
    lemma_now(ws, h);
    assert(spot_holds(after(ws, h), s));
    assert(tp.take(t.len() as int) =~= t);
    if exists|slot: u32| #[trigger] in_slot(t, s.n, slot, off) {
        let slot = choose|slot: u32| #[trigger] in_slot(t, s.n, slot, off);
        lemma_known(t, tp, s.n, slot);
        lemma_has_slot(ws, h, p, s, slot);
    }
    let (g, slot, j) = choose|g: u64, slot: u32, j: int| #[trigger]
        reads_key(t, s.n, g, slot, j) && of_text(t, off_of(g), off);
    lemma_known(t, tp, s.n, slot);
    lemma_has_slot(ws, h, p, s, slot);
    assert(loads(tp, j, slot_at(s.n, slot)));
    lemma_slot_read(ws, h, p, s, slot, j);
    lemma_saw(ws, h, p, j);
    lemma_saw(ws, h, p, x);
    lemma_saw(ws, h, p, m);
    let y = before(h, p, j);
    let r = choose|r: Spot| #[trigger]
        stands(ws, y, r) && is_key(ws, y, r) && off_of(g) == r.n && kind_of(g) == r.kind;
    lemma_now(ws, y);
    assert(spot_holds(after(ws, y), r));
    lemma_stands_later(ws, h, place(h, p, j), r);
    if off != r.n + 8 {
        let i = choose|i: int| #[trigger] text_word(t, off_of(g), off, i);
        assert(loads(tp, i, r.n + 8));
        lemma_saw(ws, h, p, i);
        lemma_length_read(ws, h, r, place(h, p, i));
    }
    assert(r.has(off as int));
    lemma_place_order(ws, h, p, j, x);
    lemma_place_order(ws, h, p, x, m);
    assert(before(h, p, x).take(place(h, p, j)) =~= y);
    assert(before(h, p, m).take(place(h, p, j)) =~= y);
    lemma_key_word(ws, before(h, p, x), place(h, p, j), r, off as int);
    lemma_key_word(ws, before(h, p, m), place(h, p, j), r, off as int);
}

/// A mutation acts on what is there, whatever calls other threads make: if a thread looked `key` up
/// in an object or map that stood, with its accesses from `k` to `i`, and claimed the node with
/// access `m` at the version at which it had looked, then what it found is what the node holds at
/// the moment of the claim.
pub proof fn law_calls_look_up_what_is_there(
    ws: Seq<u64>,
    h: Seq<Step>,
    s: Spot,
    p: int,
    key: Seq<char>,
    entry: Option<(u32, u64)>,
    k: int,
    i: int,
    m: int,
)
    requires
        all_call(ws, h),
        h.len() <= u64::MAX,
        table_kind(s.kind),
        0 <= k < i <= m < of_thread(h, p).len(),
        stands(ws, before(h, p, k), s),
        lookup(of_thread(h, p).take(i), k, s.n, key, claimed(of_thread(h, p), m), entry),
        marks(of_thread(h, p)[m], seq_off(s.n)),
    ensures
        found_in(after(ws, before(h, p, m)), s.n, key, entry),
{
    let t = of_thread(h, p);
    lemma_upheld(ws, h);
    lemma_stood(ws, h, p, k, s);
    law_calls_are_guarded(ws, h, s);
    lemma_texts(ws, h, s, p, key, claimed(t, m), entry, k, i, m);
    law_lookup_holds_at_claim(ws, h, s.n, s.end(), p, key, entry, k, i, m, since(h, s));
}

/// What a thread looks up is there, whatever calls other threads make: if it looked `key` up in an
/// object or map that stood, with its accesses from `k` to `i`, then what it found is what the node
/// holds at the moment of the last of them, at which nobody is changing it.
#[verifier::rlimit(40)]
pub proof fn law_calls_look_up_at_one_moment(
    ws: Seq<u64>,
    h: Seq<Step>,
    s: Spot,
    p: int,
    key: Seq<char>,
    seq: u64,
    entry: Option<(u32, u64)>,
    k: int,
    i: int,
)
    requires
        all_call(ws, h),
        h.len() <= u64::MAX,
        table_kind(s.kind),
        0 <= k < i <= of_thread(h, p).len(),
        stands(ws, before(h, p, k), s),
        lookup(of_thread(h, p).take(i), k, s.n, key, seq, entry),
    ensures
        found_in(after(ws, before(h, p, i - 1)), s.n, key, entry),
        !odd(word(after(ws, before(h, p, i - 1)), s.n + 16)),
{
    let t = of_thread(h, p);
    let u = t.take(i);
    let e = since(h, s);
    let a = place(h, p, k);
    let b = place(h, p, i - 1);
    let now = after(ws, h.take(b));
    lemma_upheld(ws, h);
    lemma_stood(ws, h, p, k, s);
    law_calls_are_guarded(ws, h, s);
    lemma_texts(ws, h, s, p, key, seq, entry, k, i, i - 1);
    lemma_place(ws, h, p, k);
    lemma_place(ws, h, p, i - 1);
    lemma_place_order(ws, h, p, k, i - 1);
    assert(u[k] == t[k] && u[i - 1] == t[i - 1]);
    lemma_saw(ws, h, p, k);
    lemma_saw(ws, h, p, i - 1);
    lemma_now(ws, h);
    assert(spot_holds(after(ws, h), s));
    crate::history::law_stable_version(ws, h, s.n, s.end(), a, b, b, e);
    assert forall|x: int| u.take(k).len() <= x < u.len() implies crate::record::answered(
        now,
        #[trigger] u[x],
    ) by {
        assert(u[x] == t[x]);
        if let Event::Load { off, val } = t[x] {
            assert(loads(t, x, off as int));
            if s.n < off < s.end() {
                lemma_place(ws, h, p, x);
                lemma_place_order(ws, h, p, k, x);
                lemma_place_order(ws, h, p, x, i - 1);
                crate::history::law_stable_version(ws, h, s.n, s.end(), a, b, place(h, p, x), e);
            }
        }
    }
    assert(crate::record::agrees(u.take(k), u, now));
}

/// The texts that a lookup has read are there at a later moment.
pub(crate) proof fn lemma_texts(
    ws: Seq<u64>,
    h: Seq<Step>,
    s: Spot,
    p: int,
    key: Seq<char>,
    seq: u64,
    entry: Option<(u32, u64)>,
    k: int,
    i: int,
    m: int,
)
    requires
        upheld(ws, h),
        stands(ws, h, s),
        table_kind(s.kind),
        0 <= k < i <= m + 1 <= of_thread(h, p).len(),
        lookup(of_thread(h, p).take(i), k, s.n, key, seq, entry),
    ensures
        forall|x: int, off: int|
            k <= x < i && !(s.n < off < s.end()) && #[trigger] loads(of_thread(h, p), x, off)
                ==> seen(of_thread(h, p), x) == word(after(ws, before(h, p, m)), off),
{
    let t = of_thread(h, p);
    assert forall|x: int, off: int|
        k <= x < i && !(s.n < off < s.end()) && #[trigger] loads(t, x, off) implies seen(t, x)
        == word(after(ws, before(h, p, m)), off) by {
        let u = t.take(i);
        assert(u[x] == t[x]);
        assert(u[x] matches Event::Load { off: o, .. } && o == off);
        assert(looks_at(u.take(x), s.n, off as u64));
        assert(u.take(x) =~= t.take(x));
        lemma_text_read(ws, h, p, s, x, off as u64, m);
    }
}

/// As `lemma_texts`, for what a claim rests on.
proof fn lemma_texts_stay(
    ws: Seq<u64>,
    h: Seq<Step>,
    s: Spot,
    p: int,
    t0: Seq<Event>,
    key: Seq<char>,
    entry: Option<(u32, u64)>,
    i: int,
    k: int,
) -> (t1: Seq<Event>)
    requires
        upheld(ws, h),
        stands(ws, h, s),
        table_kind(s.kind),
        claims_lookup(t0, of_thread(h, p), s.n, key, entry, i, k),
    ensures
        t0.len() <= t1.len(),
        claims_lookup(t1, of_thread(h, p), s.n, key, entry, i, k),
        texts_stay(ws, h, s.n, s.end(), p, t1, i, k),
{
    let t = of_thread(h, p);
    let u = t.take(i);
    let b = choose|b: int|
        t0.len() <= b && #[trigger] lookup(u, b, s.n, key, claimed(t, k), entry);
    let t1 = u.take(b);
    assert(lookup(u, b, s.n, key, claimed(t, k), entry));
    assert(looked_up(t1, u, s.n, key, claimed(t, k), entry));
    lemma_texts(ws, h, s, p, key, claimed(t, k), entry, b, i, k);
    t1
}

/// The object or map `s` stood when thread `p` made the first access after `t0`.
pub open spec fn stood_at(ws: Seq<u64>, h: Seq<Step>, p: int, t0: Seq<Event>, s: Spot) -> bool {
    &&& t0.len() < of_thread(h, p).len()
    &&& table_kind(s.kind)
    &&& stands(ws, before(h, p, t0.len() as int), s)
}

/// Linking a handle to a key that was found is one step, whatever calls other threads make.
pub proof fn law_calls_link_in_one_step(
    ws: Seq<u64>,
    h: Seq<Step>,
    s: Spot,
    p: int,
    t0: Seq<Event>,
    key: Seq<char>,
    child: u64,
    slot: u32,
    vh: u64,
    i: int,
    k: int,
)
    requires
        all_call(ws, h),
        h.len() <= u64::MAX,
        stood_at(ws, h, p, t0, s),
        links(t0, of_thread(h, p), s.n, key, child, Some((slot, vh)), i, k),
    ensures
        found_in(after(ws, before(h, p, k)), s.n, key, Some((slot, vh))),
        ({
            let (r, xs) = handle_put(after(ws, before(h, p, k)), s.n as int, key, child);
            r == Ok::<(), GraphError>(()) && same_node(before_last(ws, h, p), xs, s.n, s.end())
        }),
{
    let entry = Some((slot, vh));
    lemma_upheld(ws, h);
    lemma_stood(ws, h, p, t0.len() as int, s);
    lemma_now(ws, h);
    assert(spot_holds(after(ws, h), s));
    law_calls_are_guarded(ws, h, s);
    let t1 = lemma_texts_stay(ws, h, s, p, t0, key, entry, i, k);
    assert(links(t1, of_thread(h, p), s.n, key, child, entry, i, k));
    lemma_found_at_claim(ws, h, s.n, s.end(), p, t1, key, entry, i, k, since(h, s));
    law_link_is_one_step(ws, h, s.n, s.end(), p, t1, key, child, slot, vh, i, k, since(h, s));
}

/// Inserting a key is one step, whatever calls other threads make: the key was absent, there is a
/// free slot, and the object or map differs in that the slot has been put to use.
#[verifier::rlimit(50)]
pub proof fn law_calls_insert_in_one_step(
    ws: Seq<u64>,
    h: Seq<Step>,
    s: Spot,
    p: int,
    t0: Seq<Event>,
    key: Seq<char>,
    child: u64,
    i: int,
    k: int,
)
    requires
        all_call(ws, h),
        h.len() <= u64::MAX,
        stood_at(ws, h, p, t0, s),
        links(t0, of_thread(h, p), s.n, key, child, None, i, k),
    ensures
        slot_of(after(ws, before(h, p, k)), s.n as int, key) is None,
        exists|slot: u32, kh: u64| #[trigger]
            inserts(ws, h, s.n, s.end(), p, k, key, child, slot, kh),
        held_to_the_end(of_thread(h, p), k, s.n),
{
    let t = of_thread(h, p);
    lemma_upheld(ws, h);
    lemma_stood(ws, h, p, t0.len() as int, s);
    lemma_now(ws, h);
    assert(spot_holds(after(ws, h), s));
    law_calls_are_guarded(ws, h, s);
    let t1 = lemma_texts_stay(ws, h, s, p, t0, key, None, i, k);
    assert(links(t1, t, s.n, key, child, None, i, k));
    law_calls_make_elsewhere(ws, h, p, k, s);
    law_insert_is_one_step(ws, h, s.n, s.end(), p, t1, key, child, i, k, since(h, s));
}

/// Deleting a key is one step, whatever calls other threads make.
pub proof fn law_calls_delete_in_one_step(
    ws: Seq<u64>,
    h: Seq<Step>,
    s: Spot,
    p: int,
    t0: Seq<Event>,
    key: Seq<char>,
    used: bool,
    slot: u32,
    vh: u64,
    i: int,
    k: int,
)
    requires
        all_call(ws, h),
        h.len() <= u64::MAX,
        stood_at(ws, h, p, t0, s),
        empties(t0, of_thread(h, p), s.n, key, used, slot, vh, i, k),
    ensures
        ({
            let (was, xs) = key_deleted(after(ws, before(h, p, k)), s.n as int, key);
            was && used && same_node(before_last(ws, h, p), xs, s.n, s.end())
        }),
{
    let entry = Some((slot, vh));
    let now = after(ws, before(h, p, k));
    lemma_upheld(ws, h);
    lemma_stood(ws, h, p, t0.len() as int, s);
    lemma_now(ws, h);
    assert(spot_holds(after(ws, h), s));
    law_calls_are_guarded(ws, h, s);
    let t1 = lemma_texts_stay(ws, h, s, p, t0, key, entry, i, k);
    assert(empties(t1, of_thread(h, p), s.n, key, used, slot, vh, i, k));
    lemma_found_at_claim(ws, h, s.n, s.end(), p, t1, key, entry, i, k, since(h, s));
    lemma_saw(ws, h, p, k);
    lemma_claimed_stands(ws, h, p, k, s);
    lemma_now(ws, before(h, p, k));
    assert(spot_holds(now, s));
    law_delete_is_one_step(ws, h, s.n, s.end(), p, t1, key, used, slot, vh, i, k, since(h, s));
}

// New keys.

/// The text of a key that a thread has made is what it was made for.
#[verifier::rlimit(50)]
proof fn lemma_key_text(ws: Seq<u64>, h: Seq<Step>, s: Spot, text: Seq<char>)
    requires
        upheld(ws, h),
        s.d > 0,
        stands(ws, h, s),
        is_key(ws, h, s),
        scalar_at(of_thread(h, s.p), s, Value::Str(text)),
    ensures
        str_bytes(after(ws, h), s.n as int) == encode_utf8(text),
{
    let p = s.p;
    let t = of_thread(h, p);
    let v = Value::Str(text);
    let g = handle(s.kind, s.n);
    let w = node_stores(s.n as int, v);
    let b = s.d - w.len();
    lemma_handle(s.kind, s.n);
    lemma_payload_len(v);
    lemma_made_spot(t, s);
    lemma_now(ws, h);
    assert(spot_holds(after(ws, h), s));
    assert(w.len() == s.writes());
    lemma_since(ws, h, s);
    lemma_place(ws, h, p, b);
    assert forall|x: int, off: int|
        place(h, p, b) <= x < h.len() && s.n <= off < s.n + NODE_HDR + v.size() && !(h[x].thread == p
            && of_thread(h.take(x), p).len() < s.d) implies !#[trigger] changes(h[x].event, off) by {
        if changes(h[x].event, off) {
            let y = h.take(x);
            let z = h.take(x + 1);
            assert(z.drop_last() =~= y);
            lemma_upheld_take(ws, h, x);
            lemma_upheld_take(ws, h, x + 1);
            assert(in_bounds(ws, h.take(x + 1)));
            assert(goes_on(ws, z));
            if stands(ws, y, s) {
                lemma_changes_spot(ws, z, s, off);
                lemma_role_later(ws, h, x, s);
                lemma_roles_apart(ws, h, s);
            } else {
                lemma_being_made(ws, h, x, s, b);
                lemma_only_maker(ws, z, p, s.born(), s.n, s.room() as u64, off);
                lemma_turn(h, p, x);
                if of_thread(y, p).len() >= s.d {
                    lemma_thread_extends(h, p, x);
                    lemma_spot_earlier(of_thread(y, p), t, s);
                }
            }
        }
    }
    assert(left_alone(h, p, s.n as int, s.n + NODE_HDR + v.size(), b, s.d));
    law_made_node_holds(ws, h, p, t.take(b), g, v, s.d);
}

/// While a node is being made, its maker is at work on the block.
#[verifier::rlimit(40)]
proof fn lemma_being_made(ws: Seq<u64>, h: Seq<Step>, x: int, s: Spot, b: int)
    requires
        upheld(ws, h),
        s.d > 0,
        stands(ws, h, s),
        0 <= x < h.len(),
        !stands(ws, h.take(x), s),
        s.born() + 2 <= b < s.d,
        place(h, s.p, b) <= x,
    ensures
        taken(of_thread(h.take(x), s.p), s.born(), s.n, s.room() as u64),
        unfinished(of_thread(h.take(x), s.p), s.p, s.born()),
{
    let p = s.p;
    let t = of_thread(h, p);
    let u = of_thread(h.take(x), p);
    let i = s.born();
    let n = s.room() as u64;
    lemma_made_spot(t, s);
    lemma_thread_extends(h, p, x);
    assert forall|j: int| 0 <= j < u.len() implies #[trigger] t[j] == u[j] by {
        assert(t.take(u.len() as int)[j] == t[j]);
    }
    if u.len() >= s.d {
        lemma_spot_earlier(u, t, s);
    }
    lemma_place(ws, h, p, b);
    let k = place(h, p, b);
    assert(h.take(x).take(k) =~= h.take(k));
    lemma_thread_prefix(h.take(x), p, k);
    assert(u.len() >= b);
    assert(t[i] == u[i] && t[i + 1] == u[i + 1]);
    assert forall|j: int| i + 2 <= j < u.len() implies in_block_of(#[trigger] u[j], s) by {
        assert(t[j] == u[j]);
    }
    assert forall|j: int| i + 2 <= j < u.len() implies crate::discipline::in_block(
        #[trigger] u[j],
        s.n,
        n,
    ) by {
        assert(in_block_of(u[j], s));
    }
    assert forall|r: Spot| #[trigger] made_spot(u, r) && r.p == p implies r.born() != i by {
        if r.born() == i {
            lemma_spot_later(u, t, r);
            lemma_same_birth(t, s, r);
            lemma_made_spot(u, r);
        }
    }
}

/// The access writes a word of the node.
spec fn in_block_of(e: Event, s: Spot) -> bool {
    e matches Event::Store { off, .. } && s.n <= off < s.end()
}

/// The text that a thread has made and linked is a key, and stays what it was made for.
#[verifier::rlimit(50)]
pub proof fn lemma_linked_key(
    ws: Seq<u64>,
    h: Seq<Step>,
    e: int,
    p: int,
    s: Spot,
    k: int,
    slot: u32,
    key: Seq<char>,
    kh: u64,
) -> (r: Spot)
    requires
        upheld(ws, h),
        0 <= e <= h.len(),
        0 <= k,
        stands(ws, h.take(e), s),
        table_kind(s.kind),
        slot < s.cap,
        makes_key(of_thread(h.take(e), p), k, slot_at(s.n, slot), key, kh),
        marks(of_thread(h.take(e), p)[k], seq_off(s.n)),
    ensures
        stands(ws, h, r),
        is_key(ws, h, r),
        r.n == off_of(kh),
        r.kind == kind_of(kh),
        r.kind == KIND_STR,
        kh != H_INVALID,
        str_bytes(after(ws, h), off_of(kh) as int) == encode_utf8(key),
{
    let g = h.take(e);
    let t = of_thread(g, p);
    let x = t.len() - 5;
    let u = t.take(x);
    let v = Value::Str(key);
    lemma_upheld_take(ws, h, e);
    lemma_none_free(ws, g, p);
    lemma_now(ws, g);
    assert(spot_holds(after(ws, g), s));
    assert(!crate::discipline::free_found(u)) by {
        if crate::discipline::free_found(u) {
            assert(t.take(u.len() as int) =~= u);
            crate::discipline::lemma_free_found(u, t);
        }
    }
    let d = choose|d: int|
        0 <= d <= u.len() && #[trigger] node_made(t.take(k + 1), u.take(d), kh, v)
            && crate::discipline::builds(u.take(d), u) && (crate::discipline::free_found(u)
            || made_at(u, kh, v, d));
    let r = spot_of(kh, v, p, d);
    lemma_spot_of(u, kh, v, p, d);
    assert(t.take(u.len() as int) =~= u);
    lemma_spot_later(u, t, r);
    lemma_saw(ws, g, p, x);
    let y = before(g, p, x);
    // The object or map stood when the handle was written.
    lemma_claimed_stands(ws, g, p, k, s);
    lemma_saw(ws, g, p, k);
    lemma_place_order(ws, g, p, k, x);
    assert(y.take(place(g, p, k)) =~= before(g, p, k));
    lemma_stands_later(ws, y, place(g, p, k), s);
    lemma_not_building(ws, y, p, u.take(d), s, t[x]);
    assert(u.take(d) =~= t.take(d));
    assert(first_change(t, d, x));
    law_handle_parts(kh);
    assert(keyed(t, r));
    assert(stands(ws, g, r) && is_key(ws, g, r));
    lemma_stands_later(ws, h, e, r);
    lemma_role_later(ws, h, e, r);
    lemma_thread_extends(h, p, e);
    lemma_handle(r.kind, r.n);
    assert(t.take(d) =~= u.take(d));
    crate::discipline::lemma_made_at(u, t, kh, v, d);
    crate::discipline::lemma_made_at(t, of_thread(h, p), kh, v, d);
    lemma_payload_len(v);
    assert(scalar_at(of_thread(h, p), r, v));
    lemma_key_text(ws, h, r, key);
    r
}

/// The text of a key that a thread has inserted is there at a later moment.
pub(crate) proof fn lemma_text_stays(
    ws: Seq<u64>,
    h: Seq<Step>,
    e: int,
    j: int,
    s: Spot,
    p: int,
    t0: Seq<Event>,
    key: Seq<char>,
    child: u64,
    i: int,
    k: int,
)
    requires
        upheld(ws, h),
        0 <= e <= j <= h.len(),
        stands(ws, h.take(e), s),
        table_kind(s.kind),
        links(t0, of_thread(h.take(e), p), s.n, key, child, None, i, k),
    ensures
        key_text_stays(of_thread(h.take(e), p), k, key, after(ws, h.take(j))),
{
    let g = h.take(e);
    let z = h.take(j);
    let t = of_thread(g, p);
    lemma_upheld_take(ws, h, e);
    lemma_upheld_take(ws, h, j);
    assert(z.take(e) =~= g);
    assert forall|off: int, kh: u64| #[trigger] makes_key(t, k, off, key, kh) implies str_bytes(
        after(ws, z),
        off_of(kh) as int,
    ) == encode_utf8(key) by {
        lemma_where_linked(ws, g, s, p, t0, key, child, i, k, off, kh);
        let slot = choose|slot: u32| off == #[trigger] slot_at(s.n, slot) && slot < s.cap;
        let r = lemma_linked_key(ws, z, e, p, s, k, slot, key, kh);
    }
}

/// A key is inserted once, whatever calls other threads make: if thread `p` has inserted `key` into
/// an object or map, and has released it with step `e - 1` of the history, and thread `q` claims
/// the node later, with its access `kq`, for what it had looked up under the same key, then it has
/// found the key there, if nobody has changed the node in between.
#[verifier::rlimit(80)]
#[verifier::spinoff_prover]
pub proof fn law_calls_insert_once(
    ws: Seq<u64>,
    h: Seq<Step>,
    s: Spot,
    key: Seq<char>,
    e: int,
    p: int,
    t0p: Seq<Event>,
    child: u64,
    ip: int,
    kp: int,
    q: int,
    t0q: Seq<Event>,
    entry: Option<(u32, u64)>,
    iq: int,
    kq: int,
)
    requires
        all_call(ws, h),
        h.len() <= u64::MAX,
        0 < e <= h.len(),
        place(h.take(e), p, of_thread(h.take(e), p).len() - 1) == e - 1,
        stood_at(ws, h.take(e), p, t0p, s),
        links(t0p, of_thread(h.take(e), p), s.n, key, child, None, ip, kp),
        stood_at(ws, h, q, t0q, s),
        claims_lookup(t0q, of_thread(h, q), s.n, key, entry, iq, kq),
        e <= place(h, q, kq),
        forall|x: int, off: int|
            e <= x < place(h, q, kq) && s.n < off < s.end() ==> !#[trigger] changes(
                h[x].event,
                off,
            ),
    ensures
        entry is Some,
{
    let g = h.take(e);
    let t = of_thread(g, p);
    let c = s.n;
    let hi = s.end();
    lemma_upheld(ws, h);
    lemma_stood(ws, h, q, t0q.len() as int, s);
    law_calls_are_guarded(ws, h, s);
    lemma_now(ws, h);
    assert(spot_holds(after(ws, h), s));
    law_calls_stop(ws, h, e);
    lemma_upheld(ws, g);
    lemma_stood(ws, g, p, t0p.len() as int, s);
    law_calls_make_elsewhere(ws, g, p, kp, s);
    let t1p = lemma_texts_stay(ws, g, s, p, t0p, key, None, ip, kp);
    let t1q = lemma_texts_stay(ws, h, s, q, t0q, key, entry, iq, kq);
    assert(links(t1p, t, c, key, child, None, ip, kp));
    lemma_same_since(ws, h, e, s);
    lemma_saw(ws, g, p, kp);
    lemma_claimed_stands(ws, g, p, kp, s);
    lemma_now(ws, before(g, p, kp));
    assert(spot_holds(after(ws, before(g, p, kp)), s));
    lemma_saw(ws, h, q, kq);
    lemma_text_stays(ws, h, e, place(h, q, kq), s, p, t1p, key, child, ip, kp);
    law_key_is_inserted_once(
        ws,
        h,
        c,
        hi,
        key,
        e,
        p,
        t1p,
        child,
        ip,
        kp,
        q,
        t1q,
        entry,
        iq,
        kq,
        since(h, s),
    );
}

/// A node begins to stand once.
proof fn lemma_same_since(ws: Seq<u64>, h: Seq<Step>, e: int, s: Spot)
    requires
        coherent(ws, h),
        0 <= e <= h.len(),
        stands(ws, h.take(e), s),
    ensures
        since(h.take(e), s) == since(h, s),
        since(h, s) <= e,
{
    lemma_coherent_take(ws, h, e);
    lemma_since(ws, h.take(e), s);
    if s.d > 0 {
        lemma_made_spot(of_thread(h.take(e), s.p), s);
        crate::upkeep::lemma_same_place(h, s.p, s.d - 1, e);
    }
}

/// The handle of a key is written to a slot of the object or map.
proof fn lemma_where_linked(
    ws: Seq<u64>,
    h: Seq<Step>,
    s: Spot,
    p: int,
    t0: Seq<Event>,
    key: Seq<char>,
    child: u64,
    i: int,
    k: int,
    off: int,
    kh: u64,
)
    requires
        upheld(ws, h),
        stands(ws, h, s),
        table_kind(s.kind),
        links(t0, of_thread(h, p), s.n, key, child, None, i, k),
        makes_key(of_thread(h, p), k, off, key, kh),
    ensures
        exists|slot: u32| off == #[trigger] slot_at(s.n, slot) && slot < s.cap,
{
    let t = of_thread(h, p);
    let seq = claimed(t, k);
    let t1 = t.take(k + 1);
    lemma_now(ws, h);
    assert(spot_holds(after(ws, h), s));
    let (slot, g) = choose|slot: u32, g: u64| #[trigger]
        crate::record::entry_written(t1, t, s.n, slot, g, child, seq) && crate::record::slot_known(
            t1,
            t,
            s.n,
            slot,
        );
    let count = choose|count: u64|
        ends_with(t1, t, #[trigger] crate::record::entry_stores(s.n, slot, g, child, count, seq));
    let filled = crate::record::entry_stores(s.n, slot, g, child, count, seq);
    assert(t.skip(t.len() - 5)[0] == t[t.len() - 5]);
    assert(filled[0] == t[t.len() - 5]);
    lemma_extends_refl(t);
    crate::discipline::lemma_slot_known(Seq::empty(), t1, t, t, s.n, slot);
    lemma_has_slot(ws, h, p, s, slot);
}

proof fn lemma_extends_refl(t: Seq<Event>)
    ensures
        extends(t, t),
{
    crate::trace::lemma_extends_start(t);
}

} // verus!
