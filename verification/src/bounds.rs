//! What a call does next, among other calls, is in bounds.
use crate::arena::{OFF_BUMP, OFF_CAPACITY, OFF_LOCK, SIZE_HEADER};
use crate::discipline::{
    astray, building, claimable, claims_after, claims_at, has_room, holds_since, in_run, keeps_cap,
    known, moves_version, open_block, reads_value, ready_at, run_on, scalar_found, scalar_word,
    slot_word, table_word, tags_scalar, targets, text_at, text_ready, to_held, value_read,
    value_ready, value_written, writes_key, writes_value, Op,
};
use crate::history::{
    after, changes, claim_of, coherent, lemma_holds_claim, lemma_place, of_thread, place, Step,
};
use crate::layout::{cap_of, is_table, key_at, lemma_node, slot_off, slot_ok, table_kind, wf};
use crate::memory::{word, Event};
use crate::node::NODE_HDR;
use crate::record::{made_at, slot_at, store};
use crate::standing::{
    first_change, is_key, is_value, key_fits, keyed, lemma_key_fits_later, lemma_made_spot,
    lemma_stands_later, made_spot, scalar_at, settled, stands, stores_node, value_fits, Spot,
};
use crate::trace::{claimed, loads, marks, seen, seq_off};
use crate::upkeep::{
    before, changes_node, in_bounds, in_call, lemma_block_apart, lemma_complete, lemma_early,
    lemma_node_word, lemma_none_free, lemma_now, lemma_one_spot, lemma_open_is_run, lemma_saw,
    lemma_spots_apart, node_word, op_fits, slots_hold, spot_holds, upheld,
};
use crate::value::{
    container_kind, kind_of, law_handle_parts, lemma_handle, off_of, Value, H_INVALID, KIND_ARRAY,
};
use crate::words::{lower, upper};
use vstd::prelude::*;

verus! {

// What a thread knows.

/// Whoever has claimed the version at `off` has claimed a node that stood.
pub proof fn lemma_claimed_stands(ws: Seq<u64>, h: Seq<Step>, p: int, k: int, s: Spot)
    requires
        upheld(ws, h),
        0 <= k < of_thread(h, p).len(),
        stands(ws, h, s),
        marks(of_thread(h, p)[k], seq_off(s.n)),
    ensures
        stands(ws, before(h, p, k), s),
{
    lemma_now(ws, h);
    lemma_saw(ws, h, p, k);
    assert(spot_holds(after(ws, h), s));
    let x = h.take(place(h, p, k) + 1);
    let r = choose|r: Spot| #[trigger] changes_node(ws, x, r);
    assert(spot_holds(after(ws, before(h, p, k)), r));
    lemma_stands_later(ws, h, place(h, p, k), r);
    lemma_one_spot(ws, h, s, r, s.n as int);
}

/// What a thread has read of the room of a node is what the node has, or nothing yet.
pub proof fn lemma_room_read(ws: Seq<u64>, h: Seq<Step>, p: int, s: Spot, j: int)
    requires
        upheld(ws, h),
        stands(ws, h, s),
        0 <= j < of_thread(h, p).len(),
        loads(of_thread(h, p), j, s.n + 8),
    ensures
        lower(seen(of_thread(h, p), j)) == s.cap || lower(seen(of_thread(h, p), j)) == 0,
        stands(ws, before(h, p, j), s) ==> lower(seen(of_thread(h, p), j)) == s.cap,
{
    lemma_now(ws, h);
    lemma_saw(ws, h, p, j);
    assert(spot_holds(after(ws, h), s));
    if stands(ws, before(h, p, j), s) {
        assert(spot_holds(after(ws, before(h, p, j)), s));
    } else {
        lemma_early(ws, h, s, place(h, p, j), s.n + 8);
        let t = of_thread(h, s.p);
        lemma_made_spot(t, s);
        let w = word(after(ws, before(h, p, j)), s.n + 8);
        if w != 0 {
            let x = choose|x: int|
                s.born() + 2 <= x < s.d && #[trigger] changes(t[x], s.n + 8) && t[x]->Store_val == w;
            assert(x == s.born() + 3);
        }
    }
}

/// A slot that a thread knows is one that the object or map has.
pub proof fn lemma_has_slot(ws: Seq<u64>, h: Seq<Step>, p: int, s: Spot, slot: u32)
    requires
        upheld(ws, h),
        stands(ws, h, s),
        known(of_thread(h, p), s.n, slot),
    ensures
        slot < s.cap,
{
    let t = of_thread(h, p);
    let j = choose|j: int|
        0 <= j < t.len() && #[trigger] loads(t, j, s.n + 8) && slot < lower(seen(t, j));
    lemma_room_read(ws, h, p, s, j);
}

/// A word of a slot is nothing before the object or map stands.
proof fn lemma_slot_early(ws: Seq<u64>, h: Seq<Step>, s: Spot, j: int, a: int)
    requires
        upheld(ws, h),
        stands(ws, h, s),
        table_kind(s.kind),
        0 <= j <= h.len(),
        !stands(ws, h.take(j), s),
        s.n + NODE_HDR <= a < s.end(),
    ensures
        word(after(ws, h.take(j)), a) == 0,
{
    lemma_early(ws, h, s, j, a);
    let t = of_thread(h, s.p);
    lemma_made_spot(t, s);
    if word(after(ws, h.take(j)), a) != 0 {
        let x = choose|x: int|
            s.born() + 2 <= x < s.d && #[trigger] changes(t[x], a) && t[x]->Store_val == word(
                after(ws, h.take(j)),
                a,
            );
        assert(s.d == s.born() + 6);
    }
}

/// What a thread has read off a slot may be there.
pub proof fn lemma_slot_read(ws: Seq<u64>, h: Seq<Step>, p: int, s: Spot, slot: u32, j: int)
    requires
        upheld(ws, h),
        stands(ws, h, s),
        table_kind(s.kind),
        slot < s.cap,
        0 <= j < of_thread(h, p).len(),
    ensures
        loads(of_thread(h, p), j, slot_at(s.n, slot)) ==> key_fits(
            ws,
            before(h, p, j),
            seen(of_thread(h, p), j),
        ),
        loads(of_thread(h, p), j, slot_at(s.n, slot) + 8) ==> value_fits(
            ws,
            before(h, p, j),
            seen(of_thread(h, p), j),
        ),
{
    lemma_now(ws, h);
    lemma_saw(ws, h, p, j);
    let g = before(h, p, j);
    let n = s.n as int;
    if stands(ws, g, s) {
        assert(slots_hold(ws, g, s));
        assert(key_fits(ws, g, key_at(after(ws, g), n, slot as int)));
    } else {
        lemma_slot_early(ws, h, s, place(h, p, j), slot_off(n, slot as int));
        lemma_slot_early(ws, h, s, place(h, p, j), slot_off(n, slot as int) + 8);
    }
}

/// What a thread has put into a slot may be there.
proof fn lemma_slot_written(ws: Seq<u64>, h: Seq<Step>, p: int, s: Spot, g: u64)
    requires
        upheld(ws, h),
        stands(ws, h, s),
        table_kind(s.kind),
        value_written(of_thread(h, p), s.n, g),
    ensures
        value_fits(ws, h, g),
{
    let t = of_thread(h, p);
    let (slot, j) = choose|slot: u32, j: int| #[trigger] writes_value(t, s.n, g, slot, j);
    lemma_now(ws, h);
    lemma_saw(ws, h, p, j);
    let k = place(h, p, j);
    let x = h.take(k + 1);
    let y = before(h, p, j);
    let off = (slot_at(s.n, slot) + 8) as u64;
    assert(spot_holds(after(ws, h), s));
    assert(t[j] == (Event::Store { off, val: g }));
    lemma_known_earlier(t, s.n, slot, j);
    lemma_has_slot(ws, h, p, s, slot);
    if in_run(Seq::empty(), of_thread(y, p), off) {
        lemma_run_misses_slots(ws, h, p, j, s, off);
    }
    let r = choose|r: Spot| #[trigger] changes_node(ws, x, r);
    assert(spot_holds(after(ws, y), r));
    lemma_stands_later(ws, h, k, r);
    if off != r.n + 16 {
        lemma_node_word(ws, x, r, off as int, g);
    }
    lemma_one_spot(ws, h, s, r, off as int);
    let i = choose|i: int|
        0 <= i < r.cap && (off == #[trigger] slot_off(r.n as int, i) && key_fits(ws, x, g) || off
            == slot_off(r.n as int, i) + 8 && value_fits(ws, x, g));
    assert(value_fits(ws, x, g));
    lemma_key_fits_later(ws, h, k + 1, g);
}

proof fn lemma_known_earlier(t: Seq<Event>, c: u64, slot: u32, j: int)
    requires
        0 <= j <= t.len(),
        known(t.take(j), c, slot),
    ensures
        known(t, c, slot),
{
    assert(t.take(t.take(j).len() as int) =~= t.take(j));
    crate::discipline::lemma_known(t.take(j), t, c, slot);
}

/// Whoever makes a node does not write to the slots of an object or map.
proof fn lemma_run_misses_slots(ws: Seq<u64>, h: Seq<Step>, p: int, j: int, s: Spot, off: u64)
    requires
        upheld(ws, h),
        stands(ws, h, s),
        table_kind(s.kind),
        0 <= j < of_thread(h, p).len(),
        s.n + NODE_HDR <= off < s.end(),
    ensures
        !in_run(Seq::empty(), of_thread(before(h, p, j), p), off),
{
    lemma_saw(ws, h, p, j);
    let t = of_thread(h, p);
    let u = of_thread(before(h, p, j), p);
    if in_run(Seq::empty(), u, off) {
        let (i, b, n) = choose|i: int, b: u64, n: u64|
            Seq::<Event>::empty().len() <= i && #[trigger] run_on(u, i, b, n, off);
        assert(u[i] == t[i]);
        lemma_block_apart(ws, h, p, i, b, n, s);
        lemma_made_spot(t, s);
        assert(u[i + 2] == t[i + 2]);
        assert(tags_scalar(u[i + 2], b));
    }
}

/// A scalar that a thread has found in an object or map, or has put there, stands, and is no key.
pub proof fn lemma_scalar(ws: Seq<u64>, h: Seq<Step>, p: int, s: Spot, g: u64) -> (r: Spot)
    requires
        upheld(ws, h),
        stands(ws, h, s),
        table_kind(s.kind),
        scalar_found(of_thread(h, p), s.n, g),
    ensures
        stands(ws, h, r),
        is_value(ws, h, r),
        r.n == off_of(g),
        r.kind == kind_of(g),
        !container_kind(r.kind),
{
    let t = of_thread(h, p);
    if value_read(t, s.n, g) {
        let (slot, j) = choose|slot: u32, j: int| #[trigger] reads_value(t, s.n, g, slot, j);
        lemma_has_slot(ws, h, p, s, slot);
        lemma_slot_read(ws, h, p, s, slot, j);
        lemma_saw(ws, h, p, j);
        lemma_key_fits_later(ws, h, place(h, p, j), g);
    } else {
        lemma_slot_written(ws, h, p, s, g);
    }
    choose|r: Spot| #[trigger]
        stands(ws, h, r) && is_value(ws, h, r) && off_of(g) == r.n && kind_of(g) == r.kind
}

/// A thread does not take header words for nodes.
proof fn lemma_not_astray(ws: Seq<u64>, h: Seq<Step>, p: int, s: Spot)
    requires
        upheld(ws, h),
        stands(ws, h, s),
        table_kind(s.kind),
    ensures
        !astray(of_thread(h, p), s.n),
{
    let t = of_thread(h, p);
    lemma_now(ws, h);
    assert(spot_holds(after(ws, h), s));
    if astray(t, s.n) {
        let g = choose|g: u64| #[trigger]
            value_read(t, s.n, g) && g != H_INVALID && off_of(g) < SIZE_HEADER;
        let (slot, j) = choose|slot: u32, j: int| #[trigger] reads_value(t, s.n, g, slot, j);
        lemma_has_slot(ws, h, p, s, slot);
        lemma_slot_read(ws, h, p, s, slot, j);
        lemma_saw(ws, h, p, j);
        let y = before(h, p, j);
        let r = choose|r: Spot| #[trigger]
            stands(ws, y, r) && is_value(ws, y, r) && off_of(g) == r.n && kind_of(g) == r.kind;
        assert(spot_holds(after(ws, y), r));
    }
}

/// Whoever holds a node has claimed it.
pub proof fn lemma_holder_claims(ws: Seq<u64>, h: Seq<Step>, p: int, t0: Seq<Event>, s: Spot, k: int)
    requires
        upheld(ws, h),
        stands(ws, h, s),
        holds_since(t0, of_thread(h, p), s.n, k),
    ensures
        claim_of(of_thread(h, p), seq_off(s.n)) == Some(claimed(of_thread(h, p), k)),
{
    let t = of_thread(h, p);
    lemma_now(ws, h);
    assert(spot_holds(after(ws, h), s));
    lemma_claimed_stands(ws, h, p, k, s);
    assert forall|j: int| k < j < t.len() implies !moves_version(#[trigger] t[j], seq_off(s.n)) by {
        if moves_version(t[j], seq_off(s.n)) {
            lemma_saw(ws, h, p, k);
            lemma_saw(ws, h, p, j);
            let y = before(h, p, j);
            lemma_open_is_run(ws, y, p, t0, seq_off(s.n));
            crate::history::lemma_place_order(ws, h, p, k, j);
            assert(y.take(place(h, p, k)) =~= before(h, p, k));
            lemma_stands_later(ws, y, place(h, p, k), s);
            lemma_complete(ws, y, p, seq_off(s.n), s);
        }
    }
    lemma_holds_claim(t0, t, s.n, k);
}

// What may become a key or a value.

/// The node that a handle leads to, when it has been made.
pub open spec fn spot_of(g: u64, v: Value, p: int, d: int) -> Spot {
    Spot { n: off_of(g), kind: kind_of(g), cap: v.size() as u32, p, d }
}

pub proof fn lemma_spot_of(t: Seq<Event>, g: u64, v: Value, p: int, d: int)
    requires
        made_at(t, g, v, d),
    ensures
        made_spot(t, spot_of(g, v, p, d)),
        d > 0,
        g != H_INVALID,
{
    let s = spot_of(g, v, p, d);
    law_handle_parts(g);
    crate::layout::lemma_payload_len(v);
    lemma_handle(s.kind, s.n);
    assert(scalar_at(t, s, v));
}

/// A store to a word of a node that stands is not part of making one.
pub proof fn lemma_not_building(ws: Seq<u64>, h: Seq<Step>, p: int, t0: Seq<Event>, s: Spot, e: Event)
    requires
        upheld(ws, h),
        stands(ws, h, s),
        e is Store,
        s.has(e->Store_off as int),
    ensures
        !building(t0, of_thread(h, p), e),
{
    lemma_now(ws, h);
    assert(spot_holds(after(ws, h), s));
    let t = of_thread(h, p);
    let off = e->Store_off;
    if open_block(t0, t, off) {
        lemma_open_is_run(ws, h, p, t0, off);
        lemma_complete(ws, h, p, off, s);
    }
}

/// A text that a thread has just made is a key once its handle has been written to a slot.
proof fn lemma_becomes_key(
    ws: Seq<u64>,
    h: Seq<Step>,
    s: Spot,
    g: u64,
)
    requires
        h.len() > 0,
        upheld(ws, h.drop_last()),
        stands(ws, h.drop_last(), s),
        text_ready(of_thread(h.drop_last(), h.last().thread), g),
        h.last().event is Store,
        s.has(h.last().event->Store_off as int),
        h.last().event->Store_val == g,
    ensures
        key_fits(ws, h, g),
{
    let y = h.drop_last();
    let p = h.last().thread;
    let e = h.last().event;
    let t = of_thread(y, p);
    let u = of_thread(h, p);
    lemma_none_free(ws, y, p);
    let (text, d) = choose|text: Seq<char>, d: int| #[trigger] text_at(t, g, text, d);
    let v = Value::Str(text);
    let r = spot_of(g, v, p, d);
    lemma_spot_of(t, g, v, p, d);
    assert(u == t.push(e));
    assert(u.take(t.len() as int) =~= t);
    crate::standing::lemma_spot_later(t, u, r);
    assert(u.take(d) =~= t.take(d));
    lemma_not_building(ws, y, p, t.take(d), s, e);
    let x = t.len() as int;
    assert(first_change(u, d, x));
    assert(stores_node(u[x], r.n));
    assert(keyed(u, r));
    assert(stands(ws, h, r) && is_key(ws, h, r));
}

/// A scalar that a thread has made, and that has not become a key, may be a value.
#[verifier::rlimit(40)]
proof fn lemma_becomes_value(
    ws: Seq<u64>,
    h: Seq<Step>,
    p: int,
    s: Spot,
    g: u64,
)
    requires
        upheld(ws, h),
        stands(ws, h, s),
        table_kind(s.kind),
        value_ready(of_thread(h, p), s.n, g),
    ensures
        value_fits(ws, h, g),
{
    let t = of_thread(h, p);
    lemma_none_free(ws, h, p);
    lemma_not_astray(ws, h, p, s);
    let (v, d) = choose|v: Value, d: int| #[trigger] ready_at(t, s.n, g, v, d);
    let r = spot_of(g, v, p, d);
    lemma_spot_of(t, g, v, p, d);
    assert(stands(ws, h, r));
    if claims_after(t, d) {
        let y = choose|y: int| #[trigger] claims_at(t, d, y);
        let off = choose|off: u64| off >= SIZE_HEADER && #[trigger] marks(t[y], off);
        assert(first_change(t, d, y));
        assert(settled(t, r));
    } else {
        let u = t.drop_last();
        let x = t.len() - 1;
        let (k, text, b) = choose|k: u64, text: Seq<char>, b: int|
            b < d && #[trigger] text_at(u, k, text, b) && writes_key(u, t.last(), s.n, k);
        let slot = choose|slot: u32| #[trigger]
            known(u, s.n, slot) && slot_at(s.n, slot) <= u64::MAX && t.last() == store(
                slot_at(s.n, slot),
                k,
            );
        let off = slot_at(s.n, slot) as u64;
        assert(u =~= t.take(x));
        lemma_known_earlier(t, s.n, slot, x);
        lemma_has_slot(ws, h, p, s, slot);
        lemma_saw(ws, h, p, x);
        let y = before(h, p, x);
        assert(u.take(d) =~= t.take(d));
        if building(t.take(d), u, t[x]) {
            lemma_now(ws, h);
            assert(spot_holds(after(ws, h), s));
            lemma_open_is_run(ws, y, p, t.take(d), off);
            lemma_run_misses_slots(ws, h, p, x, s, off);
        }
        assert(first_change(t, d, x));
        // The key and the value were made in different blocks.
        let q = spot_of(k, Value::Str(text), p, b);
        lemma_spot_of(u, k, Value::Str(text), p, b);
        assert(t.take(u.len() as int) =~= u);
        crate::standing::lemma_spot_later(u, t, q);
        assert(stands(ws, h, q));
        lemma_spots_apart(ws, h, q, r);
        lemma_made_spot(t, q);
        lemma_made_spot(t, r);
        assert(!stores_node(t[x], r.n));
        assert(settled(t, r));
    }
    assert(is_value(ws, h, r));
}

// What a call does.

/// The container of a call stands while it goes on.
proof fn lemma_op_stands(ws: Seq<u64>, h: Seq<Step>, j: int, op: Op)
    requires
        0 <= j <= h.len(),
        op_fits(ws, h.take(j), op),
    ensures
        op_fits(ws, h, op),
{
    match op {
        Op::Keys { c, child } => {
            let s = choose|s: Spot| #[trigger]
                stands(ws, h.take(j), s) && s.n == c && table_kind(s.kind);
            lemma_stands_later(ws, h, j, s);
            if child is Some {
                lemma_key_fits_later(ws, h, j, child->0);
            }
        },
        Op::Items { a } => {
            let s = choose|s: Spot| #[trigger]
                stands(ws, h.take(j), s) && s.n == a && s.kind == KIND_ARRAY;
            lemma_stands_later(ws, h, j, s);
        },
        Op::Nothing => {},
    }
}

/// What a call claims is a node that stands, and is no key.
proof fn lemma_claim_target(ws: Seq<u64>, h: Seq<Step>, p: int, op: Op, off: u64) -> (s: Spot)
    requires
        upheld(ws, h),
        op_fits(ws, h, op),
        claimable(op, of_thread(h, p), off),
        off != OFF_LOCK,
    ensures
        stands(ws, h, s),
        is_value(ws, h, s),
        seq_off(s.n) == off,
{
    let t = of_thread(h, p);
    match op {
        Op::Keys { c, .. } => {
            let s = choose|s: Spot| #[trigger] stands(ws, h, s) && s.n == c && table_kind(s.kind);
            if off == seq_off(c) {
                lemma_container_is_value(ws, h, s);
                s
            } else {
                let g = choose|g: u64| #[trigger]
                    scalar_found(t, c, g) && off == seq_off(off_of(g));
                lemma_scalar(ws, h, p, s, g)
            }
        },
        Op::Items { a } => {
            let s = choose|s: Spot| #[trigger]
                stands(ws, h, s) && s.n == a && s.kind == KIND_ARRAY;
            lemma_container_is_value(ws, h, s);
            s
        },
        Op::Nothing => arbitrary(),
    }
}

/// A container is no key.
pub proof fn lemma_container_is_value(ws: Seq<u64>, h: Seq<Step>, s: Spot)
    requires
        wf(ws),
        stands(ws, h, s),
        container_kind(s.kind),
    ensures
        is_value(ws, h, s),
{
    if s.d == 0 {
        let n = s.n as int;
        assert forall|c: int, i: int|
            is_table(ws, c) && 0 <= i < cap_of(ws, c) && #[trigger] key_at(ws, c, i)
                != H_INVALID implies off_of(key_at(ws, c, i)) != n by {
            lemma_node(ws, c);
            assert(slot_ok(ws, c, i));
        }
    }
}

/// What a call writes to a node that it holds may be written there.
#[verifier::rlimit(50)]
#[verifier::spinoff_prover]
proof fn lemma_target(
    ws: Seq<u64>,
    h: Seq<Step>,
    op: Op,
    m: u64,
    off: u64,
    val: u64,
) -> (s: Spot)
    requires
        h.len() > 0,
        upheld(ws, h.drop_last()),
        op_fits(ws, h.drop_last(), op),
        h.last().event == (Event::Store { off, val }),
        off != seq_off(m),
        targets(op, of_thread(h.drop_last(), h.last().thread), m, off, val),
    ensures
        stands(ws, h.drop_last(), s),
        is_value(ws, h.drop_last(), s),
        s.n == m,
        node_word(ws, h, s, off as int, val),
{
    let y = h.drop_last();
    let p = h.last().thread;
    let t = of_thread(y, p);
    assert(y =~= h.take(h.len() - 1));
    lemma_now(ws, y);
    match op {
        Op::Keys { c, child } => {
            let s = choose|s: Spot| #[trigger] stands(ws, y, s) && s.n == c && table_kind(s.kind);
            assert(spot_holds(after(ws, y), s));
            if m == c && table_word(t, c, child, off, val) {
                lemma_container_is_value(ws, y, s);
                if off != c + 24 {
                    let slot = choose|slot: u32| #[trigger] slot_word(t, c, child, slot, off, val);
                    lemma_has_slot(ws, y, p, s, slot);
                    assert(slot_off(c as int, slot as int) == slot_at(c, slot));
                    if off == slot_at(c, slot) {
                        if val != H_INVALID {
                            lemma_becomes_key(ws, h, s, val);
                        }
                    } else if val != H_INVALID {
                        if child != Some(val) {
                            lemma_becomes_value(ws, y, p, s, val);
                        }
                        lemma_key_fits_later(ws, h, h.len() - 1, val);
                    }
                    assert(node_word(ws, h, s, off as int, val));
                }
                s
            } else {
                let g = choose|g: u64| #[trigger]
                    scalar_found(t, c, g) && off_of(g) == m && scalar_word(t, g, off, val);
                let r = lemma_scalar(ws, y, p, s, g);
                assert(spot_holds(after(ws, y), r));
                if exists|j: int| #[trigger] has_room(t, m, 1, off, j) {
                    let j = choose|j: int| #[trigger] has_room(t, m, 1, off, j);
                    lemma_room_read(ws, y, p, r, j);
                } else if off == m + 8 && exists|j: int| #[trigger] keeps_cap(t, m, val, j) {
                    let j = choose|j: int| #[trigger] keeps_cap(t, m, val, j);
                    let k = choose|k: int| 0 <= k < j && marks(#[trigger] t[k], seq_off(m));
                    let i = choose|i: int|
                        0 <= i < t.len() && #[trigger] loads(t, i, m + 8) && upper(val) <= lower(
                            seen(t, i),
                        );
                    lemma_claimed_stands(ws, y, p, k, r);
                    lemma_saw(ws, y, p, j);
                    lemma_saw(ws, y, p, k);
                    crate::history::lemma_place_order(ws, y, p, k, j);
                    let z = before(y, p, j);
                    assert(z.take(place(y, p, k)) =~= before(y, p, k));
                    lemma_stands_later(ws, z, place(y, p, k), r);
                    lemma_room_read(ws, y, p, r, j);
                    lemma_room_read(ws, y, p, r, i);
                }
                r
            }
        },
        Op::Items { a } => {
            let s = choose|s: Spot| #[trigger]
                stands(ws, y, s) && s.n == a && s.kind == KIND_ARRAY;
            lemma_container_is_value(ws, y, s);
            assert(spot_holds(after(ws, y), s));
            if off != a + 24 {
                let j = choose|j: int| #[trigger] has_room(t, a, 8, off, j);
                lemma_room_read(ws, y, p, s, j);
            }
            s
        },
        Op::Nothing => arbitrary(),
    }
}

/// What a call does next is in bounds.
#[verifier::rlimit(50)]
pub proof fn lemma_in_bounds(ws: Seq<u64>, h: Seq<Step>, op: Op, b: int)
    requires
        h.len() > 0,
        upheld(ws, h.drop_last()),
        in_call(
            ws,
            h,
            h.last().thread,
            of_thread(h.drop_last(), h.last().thread).len() as int,
            op,
            b,
        ),
        coherent(ws, h),
    ensures
        in_bounds(ws, h),
{
    let y = h.drop_last();
    let p = h.last().thread;
    let e = h.last().event;
    let t = of_thread(y, p);
    let u = of_thread(h, p);
    let t0 = u.take(b);
    assert(u == t.push(e));
    assert(u.take(t.len() as int) =~= t);
    assert(y =~= h.take(h.len() - 1));
    lemma_place(ws, h, p, b);
    let k0 = place(h, p, b);
    assert(y.take(k0) =~= h.take(k0));
    lemma_op_stands(ws, y, k0, op);
    lemma_now(ws, y);
    lemma_none_free(ws, y, p);
    match e {
        Event::Load { .. } => {},
        Event::Cas { off, current, new, done } => {
            if done {
                if marks(e, off) && claimable(op, t, off) {
                    if off != OFF_LOCK {
                        let s = lemma_claim_target(ws, y, p, op, off);
                        assert(changes_node(ws, h, s));
                    }
                } else if off == OFF_BUMP {
                    let j = choose|j: int|
                        0 <= j < t.len() && #[trigger] loads(t, j, OFF_CAPACITY as int) && new
                            <= seen(t, j);
                    lemma_saw(ws, y, p, j);
                }
            }
        },
        Event::Store { off, val } => {
            if off != OFF_LOCK {
                if open_block(t0, t, off) {
                    lemma_open_is_run(ws, y, p, t0, off);
                } else {
                    let (m, k) = choose|m: u64, k: int| #[trigger]
                        holds_since(t0, t, m, k) && to_held(op, t, m, k, off, val);
                    if off == seq_off(m) {
                        let s = lemma_claim_target(ws, y, p, op, off);
                        assert(spot_holds(after(ws, y), s));
                        assert(s.n == m);
                        lemma_holder_claims(ws, y, p, t0, s, k);
                        assert(changes_node(ws, h, s));
                    } else {
                        let s = lemma_target(ws, h, op, m, off, val);
                        assert(spot_holds(after(ws, y), s));
                        lemma_holder_claims(ws, y, p, t0, s, k);
                        lemma_node_word(ws, h, s, off as int, val);
                        assert(changes_node(ws, h, s));
                    }
                }
            }
        },
    }
}

} // verus!
