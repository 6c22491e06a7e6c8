//! Threads that increment one number, by its key.
use crate::arena::{odd, SIZE_HEADER};
use crate::attempts::{claims_once, last_claim, quiet, unclaiming};
use crate::bounds::{lemma_spot_of, spot_of};
use crate::calls::{
    law_calls_are_guarded, law_calls_insert_in_one_step, law_calls_look_up_at_one_moment,
    law_calls_look_up_what_is_there, law_calls_stop, lemma_even, lemma_key_word, lemma_since,
    lemma_text_stays, stood_at,
};
use crate::counters::{counts_found, counts_new, key_counted};
use crate::counting::{
    advanced, begun, counter_off, counting, counts_only, increments, increments_below,
    law_elsewhere_counts_nothing, law_increment_is_one_update, law_no_lost_updates, phase,
};
use crate::discipline::{free_found, moves_version};
use crate::graph::{found_in, links, lookup};
use crate::history::{
    after, changes, claim_of, claim_stands, coherent, guarded, holds, lemma_effect,
    lemma_guarded_prefix, lemma_held_alone, lemma_holder, lemma_holds_claim, lemma_place,
    lemma_place_order, lemma_thread_grows, lemma_thread_prefix, of_thread, place, Step,
};
use crate::insertion::{lemma_release_elsewhere, lemma_turn};
use crate::layout::{cap_of, count_of, is_table, key_at, slot_off, table_kind, tag_of, val_at};
use crate::linear::{before_last, held_to_the_end, inserts};
use crate::memory::{word, Event};
use crate::node::{counter_at, increment_seen, str_bytes, value_at, NODE_HDR};
use crate::record::{made_since, node_made, node_stores};
use crate::standing::{
    is_key, is_value, key_fits, lemma_made_spot, lemma_spot_earlier, lemma_spot_later,
    lemma_stands_later, made_spot, scalar_at, since, stands, value_fits, Spot,
};
use crate::tables::{handle_for, has_key_at, one_up, slot_of, with_entry};
use crate::trace::{claimed, extends, idle, marks, seq_off};
use crate::upholding::{goes_on, lemma_changes_spot, lemma_upheld};
use crate::upkeep::{
    all_call, before, in_bounds, lemma_none_free, lemma_now, lemma_same_place, lemma_saw,
    lemma_upheld_take, slots_hold, spot_holds, upheld,
};
use crate::value::{
    kind_of, lemma_handle, off_of, Value, H_INVALID, KIND_INT, KIND_STR, OFFSET_LIMIT,
};
use vstd::prelude::*;
use vstd::utf8::encode_utf8;

verus! {

/// Nobody claims the node `s` from moment `i` to moment `j`.
pub open spec fn unclaimed(h: Seq<Step>, s: Spot, i: int, j: int) -> bool {
    forall|x: int| i <= x < j ==> !marks((#[trigger] h[x]).event, seq_off(s.n))
}

/// A node that nobody is changing, and that nobody claims, stays as it is.
#[verifier::rlimit(40)]
pub(crate) proof fn lemma_node_stays(ws: Seq<u64>, h: Seq<Step>, s: Spot, i: int, j: int)
    requires
        upheld(ws, h),
        stands(ws, h, s),
        guarded(ws, h, s.n, s.end(), since(h, s)),
        since(h, s) <= i <= j <= h.len(),
        !odd(word(after(ws, h.take(i)), s.n + 16)),
        unclaimed(h, s, i, j),
    ensures
        forall|off: int|
            s.n <= off < s.end() ==> #[trigger] word(after(ws, h.take(j)), off) == word(
                after(ws, h.take(i)),
                off,
            ),
    decreases j - i,
{
    if i < j {
        let x = j - 1;
        let y = h.take(x);
        let z = h.take(j);
        let e = h[x].event;
        let q = h[x].thread;
        lemma_node_stays(ws, h, s, i, x);
        lemma_since(ws, h, s);
        lemma_upheld_take(ws, h, x);
        lemma_upheld_take(ws, h, j);
        lemma_now(ws, y);
        assert(stands(ws, y, s));
        assert(spot_holds(after(ws, y), s));
        assert(z.drop_last() =~= y);
        assert(z.last() == h[x]);
        assert(in_bounds(ws, h.take(j)));
        assert(goes_on(ws, z));
        assert forall|off: int| s.n <= off < s.end() implies #[trigger] word(after(ws, z), off)
            == word(after(ws, y), off) by {
            lemma_effect(after(ws, y), e, off);
            if changes(e, off) {
                lemma_changes_spot(ws, z, s, off);
                lemma_guarded_prefix(ws, h, s.n, s.end(), x, since(h, s));
                lemma_holder(ws, y, s.n, s.end(), since(h, s));
                assert(claim_stands(ws, y, q, s.n));
                assert(word(after(ws, y), s.n + 16) == word(after(ws, h.take(i)), s.n + 16));
                assert(!marks(h[x].event, seq_off(s.n)));
            }
        }
    }
}

/// Slots that lead to the same texts have the same keys: the text of a key stays what it is.
pub(crate) proof fn lemma_same_key(
    ws: Seq<u64>,
    h: Seq<Step>,
    s: Spot,
    i: int,
    j: int,
    slot: int,
    key: Seq<u8>,
)
    requires
        upheld(ws, h),
        stands(ws, h.take(i), s),
        table_kind(s.kind),
        0 <= i <= j <= h.len(),
        0 <= slot < s.cap,
        key_at(after(ws, h.take(j)), s.n as int, slot) == key_at(
            after(ws, h.take(i)),
            s.n as int,
            slot,
        ),
    ensures
        has_key_at(after(ws, h.take(j)), s.n as int, slot, key) == has_key_at(
            after(ws, h.take(i)),
            s.n as int,
            slot,
            key,
        ),
{
    let y = h.take(i);
    let z = h.take(j);
    let g = key_at(after(ws, y), s.n as int, slot);
    lemma_upheld_take(ws, h, i);
    lemma_upheld_take(ws, h, j);
    lemma_now(ws, y);
    assert(slots_hold(ws, y, s));
    assert(key_fits(ws, y, g));
    if g != H_INVALID {
        let r = choose|r: Spot| #[trigger]
            stands(ws, y, r) && is_key(ws, y, r) && off_of(g) == r.n && kind_of(g) == r.kind;
        assert(spot_holds(after(ws, y), r));
        assert(z.take(i) =~= y);
        assert forall|a: int| r.n <= a < r.end() implies #[trigger] word(after(ws, z), a) == word(
            after(ws, y),
            a,
        ) by {
            lemma_key_word(ws, z, i, r, a);
        }
        lemma_text_same(after(ws, y), after(ws, z), r);
    }
}

/// A text that lies in words that stay as they are stays as it is.
proof fn lemma_text_same(xs: Seq<u64>, ys: Seq<u64>, r: Spot)
    requires
        spot_holds(xs, r),
        r.kind == KIND_STR,
        forall|a: int| r.n <= a < r.end() ==> #[trigger] word(ys, a) == word(xs, a),
    ensures
        str_bytes(ys, r.n as int) == str_bytes(xs, r.n as int),
{
    let n = r.n as int;
    assert(word(ys, n + 8) == word(xs, n + 8));
    assert(str_bytes(ys, n) =~= str_bytes(xs, n)) by {
        let len = crate::node::node_header(xs, n).store as int;
        assert forall|x: int| 0 <= x < len implies str_bytes(ys, n)[x] == str_bytes(xs, n)[x] by {
            assert(word(ys, n + NODE_HDR + 8 * (x / 8)) == word(xs, n + NODE_HDR + 8 * (x / 8)));
        }
    }
}

/// What can be looked up in an object or map that nobody changes stays what it is.
pub(crate) proof fn lemma_key_stays(ws: Seq<u64>, h: Seq<Step>, s: Spot, key: Seq<char>, i: int, j: int)
    requires
        upheld(ws, h),
        stands(ws, h, s),
        table_kind(s.kind),
        guarded(ws, h, s.n, s.end(), since(h, s)),
        since(h, s) <= i <= j <= h.len(),
        !odd(word(after(ws, h.take(i)), s.n + 16)),
        unclaimed(h, s, i, j),
    ensures
        slot_of(after(ws, h.take(j)), s.n as int, key) == slot_of(
            after(ws, h.take(i)),
            s.n as int,
            key,
        ),
        slot_of(after(ws, h.take(i)), s.n as int, key) matches Some(x) ==> val_at(
            after(ws, h.take(j)),
            s.n as int,
            x,
        ) == val_at(after(ws, h.take(i)), s.n as int, x),
        !odd(word(after(ws, h.take(j)), s.n + 16)),
{
    let xs = after(ws, h.take(i));
    let ys = after(ws, h.take(j));
    let c = s.n as int;
    let b = encode_utf8(key);
    lemma_since(ws, h, s);
    lemma_upheld_take(ws, h, i);
    lemma_upheld_take(ws, h, j);
    lemma_now(ws, h.take(i));
    lemma_now(ws, h.take(j));
    assert(stands(ws, h.take(i), s) && stands(ws, h.take(j), s));
    assert(spot_holds(xs, s) && spot_holds(ys, s));
    lemma_node_stays(ws, h, s, i, j);
    assert forall|x: int| 0 <= x < s.cap implies #[trigger] has_key_at(ys, c, x, b) == has_key_at(
        xs,
        c,
        x,
        b,
    ) by {
        assert(word(ys, slot_off(c, x)) == word(xs, slot_off(c, x)));
        lemma_same_key(ws, h, s, i, j, x, b);
    }
    crate::frames::lemma_slot_from_same(xs, ys, c, b, 0, s.cap as int);
    crate::tables::lemma_slot_from(xs, c, b, 0, s.cap as int);
}

/// A thread that has claimed a node, and has not released it, holds it.
proof fn lemma_holding(ws: Seq<u64>, h: Seq<Step>, s: Spot, p: int, k: int, x: int)
    requires
        coherent(ws, h),
        SIZE_HEADER <= s.n < OFFSET_LIMIT,
        0 <= k < of_thread(h, p).len(),
        marks(of_thread(h, p)[k], seq_off(s.n)),
        held_to_the_end(of_thread(h, p), k, s.n),
        place(h, p, k) < x <= place(h, p, of_thread(h, p).len() - 1),
    ensures
        0 <= x < h.len(),
        holds(h.take(x), p, s.n),
        k < of_thread(h.take(x), p).len() <= of_thread(h, p).len() - 1,
{
    let t = of_thread(h, p);
    let u = of_thread(h.take(x), p);
    lemma_place(ws, h, p, k);
    lemma_place(ws, h, p, t.len() - 1);
    lemma_thread_prefix(h, p, x);
    lemma_thread_grows(h, p, place(h, p, k), x);
    assert(u =~= t.take(u.len() as int));
    if u.len() == t.len() {
        let b = place(h, p, t.len() - 1);
        assert(h.take(b).take(x) =~= h.take(x));
        lemma_thread_prefix(h.take(b), p, x);
    }
    assert forall|j: int| k < j < u.len() implies !moves_version(#[trigger] u[j], seq_off(s.n)) by {
        assert(u[j] == t[j]);
    }
    assert(u[k] == t[k]);
    lemma_holds_claim(Seq::empty(), u, s.n, k);
}

/// Nobody claims a node that is held.
#[verifier::rlimit(40)]
pub(crate) proof fn lemma_alone(ws: Seq<u64>, h: Seq<Step>, s: Spot, p: int, k: int)
    requires
        upheld(ws, h),
        stands(ws, h, s),
        guarded(ws, h, s.n, s.end(), since(h, s)),
        0 <= k < of_thread(h, p).len(),
        marks(of_thread(h, p)[k], seq_off(s.n)),
        held_to_the_end(of_thread(h, p), k, s.n),
    ensures
        unclaimed(h, s, place(h, p, k) + 1, place(h, p, of_thread(h, p).len() - 1) + 1),
        forall|x: int|
            place(h, p, k) < x <= place(h, p, of_thread(h, p).len() - 1) ==> odd(
                #[trigger] word(after(ws, h.take(x)), s.n + 16),
            ),
{
    let t = of_thread(h, p);
    let b = place(h, p, t.len() - 1);
    let e = since(h, s);
    lemma_now(ws, h);
    assert(spot_holds(after(ws, h), s));
    lemma_since(ws, h, s);
    crate::bounds::lemma_claimed_stands(ws, h, p, k, s);
    lemma_place(ws, h, p, k);
    lemma_place(ws, h, p, t.len() - 1);
    assert forall|x: int| place(h, p, k) + 1 <= x < b + 1 implies !marks(
        (#[trigger] h[x]).event,
        seq_off(s.n),
    ) by {
        if x < b {
            lemma_holding(ws, h, s, p, k, x);
            if h[x].thread == p {
                lemma_turn(h, p, x);
                let y = of_thread(h.take(x), p).len() as int;
                if y == t.len() - 1 {
                    lemma_thread_grows(h, p, x, b);
                }
                assert(!moves_version(t[y], seq_off(s.n)));
            } else {
                lemma_held_alone(ws, h, s.n, s.end(), p, x, s.n + 16, e);
            }
        }
    }
    assert forall|x: int| place(h, p, k) < x <= b implies odd(
        #[trigger] word(after(ws, h.take(x)), s.n + 16),
    ) by {
        lemma_holding(ws, h, s, p, k, x);
        lemma_guarded_prefix(ws, h, s.n, s.end(), x, e);
        crate::history::law_one_writer(ws, h.take(x), s.n, s.end(), p, p, e);
    }
}

/// A key that has been inserted is there, with its handle.
#[verifier::rlimit(60)]
pub(crate) proof fn lemma_inserted(
    ws: Seq<u64>,
    h: Seq<Step>,
    s: Spot,
    p: int,
    t0: Seq<Event>,
    key: Seq<char>,
    child: u64,
    i: int,
    k: int,
)
    requires
        all_call(ws, h),
        h.len() <= u64::MAX,
        stood_at(ws, h, p, t0, s),
        place(h, p, of_thread(h, p).len() - 1) == h.len() - 1,
        links(t0, of_thread(h, p), s.n, key, child, None, i, k),
    ensures
        slot_of(after(ws, h), s.n as int, key) matches Some(x) && val_at(after(ws, h), s.n as int, x)
            == child,
        forall|y: int|
            0 <= y < s.cap && #[trigger] has_key_at(after(ws, h), s.n as int, y, encode_utf8(key))
                ==> slot_of(after(ws, h), s.n as int, key) == Some(y),
        count_of(after(ws, h), s.n as int) == one_up(
            count_of(after(ws, before(h, p, k)), s.n as int),
        ),
        !odd(word(after(ws, h), s.n + 16)),
{
    let t = of_thread(h, p);
    let c = s.n as int;
    let b = encode_utf8(key);
    let j = place(h, p, k);
    let old_words = after(ws, h.take(j));
    let new_words = after(ws, h);
    let e = since(h, s);
    let last = h.len() - 1;
    lemma_upheld(ws, h);
    crate::calls::lemma_stood(ws, h, p, t0.len() as int, s);
    law_calls_are_guarded(ws, h, s);
    law_calls_insert_in_one_step(ws, h, s, p, t0, key, child, i, k);
    let (slot, kh) = choose|slot: u32, kh: u64| #[trigger]
        inserts(ws, h, s.n, s.end(), p, k, key, child, slot, kh);
    let x = slot as int;
    lemma_place(ws, h, p, k);
    lemma_place(ws, h, p, t.len() - 1);
    crate::bounds::lemma_claimed_stands(ws, h, p, k, s);
    lemma_saw(ws, h, p, k);
    lemma_now(ws, h);
    assert(spot_holds(new_words, s) && spot_holds(old_words, s));
    assert(h.take(last) =~= h.drop_last());
    // What the slots hold.
    let xs = with_entry(old_words, c, x, kh, child);
    assert forall|off: int| s.n < off < s.end() && off != s.n + 16 implies #[trigger] word(
        new_words,
        off,
    ) == word(xs, off) by {
        lemma_release_elsewhere(h, p, s.n, key, child, t0, i, k, off);
        lemma_effect(after(ws, h.take(last)), h[last].event, off);
        assert(word(before_last(ws, h, p), off) == word(xs, off));
    }
    lemma_entry_words(old_words, c, x, kh, child, s.end());
    assert(h.take(h.len() as int) =~= h);
    lemma_text_stays(ws, h, h.len() as int, h.len() as int, s, p, t0, key, child, i, k);
    assert(key_at(new_words, c, x) == kh);
    assert(has_key_at(new_words, c, x, b));
    crate::tables::lemma_slot_from(old_words, c, b, 0, s.cap as int);
    assert forall|y: int| 0 <= y < s.cap && y != x implies !#[trigger] has_key_at(
        new_words,
        c,
        y,
        b,
    ) by {
        assert(key_at(new_words, c, y) == key_at(old_words, c, y));
        lemma_same_key(ws, h, s, j, h.len() as int, y, b);
        assert(!has_key_at(old_words, c, y, b));
    }
    crate::tables::lemma_slot_first(new_words, c, b, 0, s.cap as int, x);
    // The version.
    lemma_released(ws, h, s, p, k);
}

/// The words of an object or map in which a slot has been put to use.
pub(crate) proof fn lemma_entry_words(ws: Seq<u64>, c: int, x: int, kh: u64, child: u64, hi: int)
    requires
        0 <= x,
        SIZE_HEADER <= c,
        c % 8 == 0,
        slot_off(c, x) + 16 <= hi <= 8 * ws.len(),
    ensures
        key_at(with_entry(ws, c, x, kh, child), c, x) == kh,
        val_at(with_entry(ws, c, x, kh, child), c, x) == child,
        word(with_entry(ws, c, x, kh, child), c + 24) == one_up(count_of(ws, c)),
        forall|y: int|
            0 <= y && y != x && slot_off(c, y) + 16 <= hi ==> #[trigger] key_at(
                with_entry(ws, c, x, kh, child),
                c,
                y,
            ) == key_at(ws, c, y),
{
    let at = slot_off(c, x);
    let count = one_up(count_of(ws, c));
    let w1 = crate::memory::put(ws, at, kh);
    let w2 = crate::memory::put(w1, at + 8, child);
    let w3 = crate::memory::put(w2, c + 24, count);
    let bump = crate::trace::bumped(crate::layout::seq_of(w3, c));
    assert forall|off: int| c + NODE_HDR <= off && off % 8 == 0 && off + 8 <= hi implies #[trigger] word(
        with_entry(ws, c, x, kh, child),
        off,
    ) == if off == at {
        kh
    } else if off == at + 8 {
        child
    } else {
        word(ws, off)
    } by {
        crate::memory::lemma_word_put(ws, at, kh, off);
        crate::memory::lemma_word_put(w1, at + 8, child, off);
        crate::memory::lemma_word_put(w2, c + 24, count, off);
        crate::memory::lemma_word_put(w3, c + 16, bump, off);
    }
    crate::memory::lemma_word_put(w2, c + 24, count, c + 24);
    crate::memory::lemma_word_put(w3, c + 16, bump, c + 24);
}

/// Nobody is changing a node that has just been released.
#[verifier::rlimit(40)]
pub(crate) proof fn lemma_released(ws: Seq<u64>, h: Seq<Step>, s: Spot, p: int, k: int)
    requires
        upheld(ws, h),
        stands(ws, h, s),
        guarded(ws, h, s.n, s.end(), since(h, s)),
        0 <= k < of_thread(h, p).len(),
        marks(of_thread(h, p)[k], seq_off(s.n)),
        held_to_the_end(of_thread(h, p), k, s.n),
        place(h, p, of_thread(h, p).len() - 1) == h.len() - 1,
    ensures
        !odd(word(after(ws, h), s.n + 16)),
{
    let t = of_thread(h, p);
    let last = h.len() - 1;
    let e = since(h, s);
    lemma_now(ws, h);
    assert(spot_holds(after(ws, h), s));
    lemma_place(ws, h, p, k);
    lemma_place(ws, h, p, t.len() - 1);
    if place(h, p, k) >= last {
        assert(place(h, p, k) == last);
        assert(k == of_thread(h.take(last), p).len());
    }
    lemma_holding(ws, h, s, p, k, last);
    let g = h.take(last);
    assert(g =~= h.drop_last());
    lemma_since(ws, h, s);
    crate::bounds::lemma_claimed_stands(ws, h, p, k, s);
    lemma_guarded_prefix(ws, h, s.n, s.end(), last, e);
    lemma_holder(ws, g, s.n, s.end(), e);
    lemma_holder(ws, h, s.n, s.end(), e);
    assert(t.drop_last() =~= of_thread(g, p));
    assert forall|q: int| !#[trigger] holds(h, q, s.n) by {
        if q == p {
            assert(claim_of(t, seq_off(s.n)) is None);
        } else {
            assert(of_thread(h, q) == of_thread(g, q));
            assert(holds(h, q, s.n) == holds(g, q, s.n));
            assert(holds(g, p, s.n));
        }
    }
}

// Calls.

/// A call that a thread made with its accesses from `b` to `e`, and that gave `v`.
pub struct Call {
    pub b: int,
    pub e: int,
    pub v: i64,
}

/// The call incremented the number under `key` of the object or map at `c`.
pub open spec fn call_counts(t: Seq<Event>, c: u64, key: Seq<char>, x: Call) -> bool {
    &&& 0 <= x.b <= x.e - 4
    &&& x.e <= t.len()
    &&& key_counted(t.take(x.b), t.take(x.e), c, key, x.v)
}

/// Access `y` is part of call `j`.
pub open spec fn in_nth(calls: Seq<Call>, j: int, y: int) -> bool {
    0 <= j < calls.len() && calls[j].b <= y < calls[j].e
}

/// Access `y` is part of none of the calls.
pub open spec fn in_none(calls: Seq<Call>, y: int) -> bool {
    forall|j: int| !#[trigger] in_nth(calls, j, y)
}

/// The access claims neither the object or map `s` nor the node that it has under `key` in the end.
pub open spec fn leaves_number(
    ws: Seq<u64>,
    h: Seq<Step>,
    s: Spot,
    key: Seq<char>,
    e: Event,
) -> bool {
    &&& !marks(e, seq_off(s.n))
    &&& !marks(e, seq_off(off_of(handle_for(after(ws, h), s.n as int, key))))
}

/// The calls follow each other.
pub open spec fn in_turn(calls: Seq<Call>) -> bool {
    forall|j: int, k: int|
        0 <= j < k < calls.len() ==> (#[trigger] calls[j]).e <= (#[trigger] calls[k]).b
}

/// Thread `p` has made the calls `calls`, which incremented the number under `key` of the object or
/// map `s`. What else it has done changed neither `s` nor the number that is under the key in the
/// end.
pub open spec fn only_counts(
    ws: Seq<u64>,
    h: Seq<Step>,
    p: int,
    s: Spot,
    key: Seq<char>,
    calls: Seq<Call>,
) -> bool {
    let t = of_thread(h, p);
    &&& forall|j: int| 0 <= j < calls.len() ==> call_counts(t, s.n, key, #[trigger] calls[j])
    &&& in_turn(calls)
    &&& forall|y: int|
        0 <= y < t.len() && #[trigger] in_none(calls, y) ==> leaves_number(ws, h, s, key, t[y])
}

/// With its accesses up to `i` the thread found the number behind `g`; with the others it
/// incremented that.
#[verifier::opaque]
spec fn found_call(t: Seq<Event>, c: u64, key: Seq<char>, x: Call, i: int, g: u64) -> bool {
    exists|seq: u64, slot: u32| #[trigger]
        counts_found(t.take(x.b), t.take(x.e), c, key, x.v, i, seq, slot, g)
}

/// With its accesses up to `i` the thread linked a new number, behind `g`; with the others it
/// incremented that.
#[verifier::opaque]
spec fn new_call(t: Seq<Event>, c: u64, key: Seq<char>, x: Call, i: int, g: u64) -> bool {
    counts_new(t.take(x.b), t.take(x.e), c, key, x.v, i, g)
}

/// The number that a call has linked.
#[verifier::rlimit(40)]
proof fn lemma_new_call(
    ws: Seq<u64>,
    h: Seq<Step>,
    s: Spot,
    key: Seq<char>,
    p: int,
    x: Call,
    i: int,
    g: u64,
) -> (q: Spot)
    requires
        all_call(ws, h),
        call_counts(of_thread(h, p), s.n, key, x),
        new_call(of_thread(h, p), s.n, key, x, i, g),
        x.b <= i <= x.e - 4,
    ensures
        q.kind == KIND_INT,
        q.n == off_of(g),
        q.p == p,
        0 < q.d <= i,
        scalar_at(of_thread(h, p), q, Value::Int(0)),
        stands(ws, before(h, p, x.e - 4), q),
        made_spot(of_thread(h, p), q),
{
    let t = of_thread(h, p);
    let t0 = t.take(x.b);
    let t1 = t.take(x.e);
    let u = t.take(i);
    let v = Value::Int(0);
    lemma_upheld(ws, h);
    assert(node_made(t0, u, g, v)) by {
        reveal(new_call);
        assert(t1.take(i) =~= u);
    }
    lemma_none_free(ws, h, p);
    assert(!free_found(u)) by {
        if free_found(u) {
            assert(t.take(u.len() as int) =~= u);
            crate::discipline::lemma_free_found(u, t);
        }
    }
    let d = choose|d: int| 0 <= d <= u.len() && #[trigger] made_since(t0, u, g, v, d);
    let q = spot_of(g, v, p, d);
    lemma_spot_of(u, g, v, p, d);
    lemma_saw(ws, h, p, x.e - 4);
    let z = before(h, p, x.e - 4);
    assert(extends(u, of_thread(z, p))) by {
        assert(t.take(x.e - 4).take(i) =~= u);
    }
    lemma_spot_later(u, of_thread(z, p), q);
    assert(extends(u, t));
    lemma_spot_later(u, t, q);
    crate::discipline::lemma_made_at(u, t, g, v, d);
    crate::value::law_handle_parts(g);
    q
}

/// What a call did, and the number that it incremented.
#[verifier::rlimit(40)]
proof fn lemma_call(ws: Seq<u64>, h: Seq<Step>, s: Spot, key: Seq<char>, p: int, x: Call) -> (r: (
    u64,
    int,
    Spot,
))
    requires
        all_call(ws, h),
        h.len() <= u64::MAX,
        s.d == 0,
        stands(ws, h, s),
        table_kind(s.kind),
        call_counts(of_thread(h, p), s.n, key, x),
    ensures
        ({
            let (g, i, q) = r;
            let t = of_thread(h, p);
            &&& x.b < i <= x.e - 4
            &&& found_call(t, s.n, key, x, i, g) || new_call(t, s.n, key, x, i, g)
            &&& increment_seen(t.take(x.e), off_of(g), x.v)
            &&& idle(t.take(i), t.take(x.e - 4))
            &&& kind_of(g) == KIND_INT
            &&& q.kind == KIND_INT
            &&& q.n == off_of(g)
            &&& stands(ws, before(h, p, i - 1), q) || new_call(t, s.n, key, x, i, g) && q.p == p && 0
                < q.d <= i && scalar_at(t, q, Value::Int(0))
            &&& stands(ws, before(h, p, x.e - 4), q)
        }),
{
    let t = of_thread(h, p);
    let t0 = t.take(x.b);
    let t1 = t.take(x.e);
    lemma_upheld(ws, h);
    reveal(found_call);
    reveal(new_call);
    assert(t1.take(x.e - 4) =~= t.take(x.e - 4));
    lemma_saw(ws, h, p, x.e - 4);
    if exists|i: int, seq: u64, slot: u32, g: u64| #[trigger]
        counts_found(t0, t1, s.n, key, x.v, i, seq, slot, g) {
        let (i, seq, slot, g) = choose|i: int, seq: u64, slot: u32, g: u64| #[trigger]
            counts_found(t0, t1, s.n, key, x.v, i, seq, slot, g);
        assert(t1.take(i) =~= t.take(i));
        let u = t.take(i);
        let k = choose|k: int|
            t0.len() <= k && #[trigger] lookup(u, k, s.n, key, seq, Some((slot, g)));
        law_calls_look_up_at_one_moment(ws, h, s, p, key, seq, Some((slot, g)), k, i);
        lemma_saw(ws, h, p, i - 1);
        let y = before(h, p, i - 1);
        assert(stands(ws, y, s));
        assert(spot_holds(after(ws, y), s) && slots_hold(ws, y, s));
        let at = slot_of(after(ws, y), s.n as int, key)->0;
        crate::tables::lemma_slot_from(after(ws, y), s.n as int, encode_utf8(key), 0, s.cap as int);
        assert(value_fits(ws, y, val_at(after(ws, y), s.n as int, at))) by {
            assert(key_fits(ws, y, key_at(after(ws, y), s.n as int, at)));
        }
        assert(kind_of(H_INVALID) != KIND_INT);
        let q = choose|q: Spot| #[trigger]
            stands(ws, y, q) && is_value(ws, y, q) && off_of(g) == q.n && kind_of(g) == q.kind;
        lemma_place_order(ws, h, p, i - 1, x.e - 4);
        let z = before(h, p, x.e - 4);
        assert(z.take(place(h, p, i - 1)) =~= y);
        lemma_stands_later(ws, z, place(h, p, i - 1), q);
        (g, i, q)
    } else {
        let (i, g) = choose|i: int, g: u64| #[trigger] counts_new(t0, t1, s.n, key, x.v, i, g);
        assert(t1.take(i) =~= t.take(i));
        let q = lemma_new_call(ws, h, s, key, p, x, i, g);
        (g, i, q)
    }
}

/// A claim of the number is the increment with which a call ends.
#[verifier::rlimit(40)]
proof fn lemma_claims_number(
    ws: Seq<u64>,
    h: Seq<Step>,
    s: Spot,
    key: Seq<char>,
    p: int,
    calls: Seq<Call>,
    y: int,
    q: Spot,
) -> (j: int)
    requires
        all_call(ws, h),
        h.len() <= u64::MAX,
        s.d == 0,
        stands(ws, h, s),
        table_kind(s.kind),
        only_counts(ws, h, p, s, key, calls),
        0 <= y < of_thread(h, p).len(),
        stands(ws, h, q),
        q.kind == KIND_INT,
        q.n == off_of(handle_for(after(ws, h), s.n as int, key)),
        marks(of_thread(h, p)[y], seq_off(q.n)),
    ensures
        0 <= j < calls.len(),
        y == calls[j].e - 4,
{
    let t = of_thread(h, p);
    lemma_upheld(ws, h);
    lemma_now(ws, h);
    assert(spot_holds(after(ws, h), q) && spot_holds(after(ws, h), s));
    assert(!in_none(calls, y)) by {
        if in_none(calls, y) {
            assert(leaves_number(ws, h, s, key, t[y]));
        }
    }
    let j = choose|j: int| #[trigger] in_nth(calls, j, y);
    let x = calls[j];
    assert(call_counts(t, s.n, key, x));
    let t1 = t.take(x.e);
    let u = t1.take(x.e - 4);
    if y < x.e - 4 {
        lemma_one_claim(t.take(x.b), t1, s.n, key, x.v, y);
        assert(u[y] == t[y]);
        crate::upkeep::lemma_spots_apart(ws, h, s, q);
    } else {
        let (g, i, r) = lemma_call(ws, h, s, key, p, x);
        assert(t1[y] == t[y]);
    }
    j
}

/// What a call claims before the increment is the object or map.
proof fn lemma_one_claim(t0: Seq<Event>, t1: Seq<Event>, c: u64, key: Seq<char>, v: i64, y: int)
    requires
        key_counted(t0, t1, c, key, v),
        t0.len() <= y < t1.len() - 4,
        SIZE_HEADER <= c < OFFSET_LIMIT,
        t1[y] is Cas,
        marks(t1[y], t1[y]->Cas_off),
        t1[y]->Cas_off >= SIZE_HEADER,
    ensures
        marks(t1[y], seq_off(c)),
        forall|z: int|
            t0.len() <= z < t1.len() - 4 && #[trigger] marks(t1[z], seq_off(c)) ==> z == y,
{
    reveal(claims_once);
    reveal(quiet);
    reveal(unclaiming);
    let u = t1.take(t1.len() - 4);
    let k = choose|k: int| #[trigger] last_claim(t0, u, c, key, None, k);
    let off = t1[y]->Cas_off;
    assert(u[y] == t1[y]);
    if y < k {
        assert(u.take(k)[y] == u[y]);
        assert(marks(u.take(k)[y], off));
    } else if y > k {
        assert(marks(u[y], off));
    }
    assert forall|z: int| t0.len() <= z < t1.len() - 4 && #[trigger] marks(t1[z], seq_off(c)) implies z
        == y by {
        assert(u[z] == t1[z]);
        if z < k {
            assert(u.take(k)[z] == u[z]);
            assert(marks(u.take(k)[z], seq_off(c)));
        } else if z > k {
            assert(marks(u[z], seq_off(c)));
        }
    }
}

/// The call linked a new number, where there was none, with the claim of the object or map with
/// access `y`.
spec fn links_with(
    t: Seq<Event>,
    c: u64,
    key: Seq<char>,
    x: Call,
    i: int,
    g: u64,
    entry: Option<(u32, u64)>,
    b: int,
    y: int,
) -> bool {
    &&& x.b <= y < i <= x.e - 4
    &&& new_call(t, c, key, x, i, g)
    &&& links(t.take(x.b), t.take(i), c, key, g, entry, b, y)
    &&& entry matches Some((_, vh)) ==> kind_of(vh) != KIND_INT
}

/// What a call that claims the object or map did.
#[verifier::rlimit(40)]
proof fn lemma_new_links(t: Seq<Event>, c: u64, key: Seq<char>, x: Call, i: int, g: u64, y: int) -> (r: (
    Option<(u32, u64)>,
    int,
))
    requires
        0 <= x.b <= y < i <= x.e - 4,
        x.e <= t.len(),
        SIZE_HEADER <= c < OFFSET_LIMIT,
        found_call(t, c, key, x, i, g) || new_call(t, c, key, x, i, g),
        marks(t[y], seq_off(c)),
        forall|z: int| x.b <= z < x.e - 4 && #[trigger] marks(t[z], seq_off(c)) ==> z == y,
    ensures
        links_with(t, c, key, x, i, g, r.0, r.1, y),
{
    let t0 = t.take(x.b);
    let t1 = t.take(x.e);
    let u = t.take(i);
    assert(t1.take(i) =~= u);
    assert(u[y] == t[y]);
    reveal(found_call);
    reveal(new_call);
    if found_call(t, c, key, x, i, g) {
        let (seq, slot) = choose|seq: u64, slot: u32| #[trigger]
            counts_found(t0, t1, c, key, x.v, i, seq, slot, g);
        reveal(quiet);
        assert(marks(u[y], seq_off(c)));
    }
    let (entry, b, k) = choose|entry: Option<(u32, u64)>, b: int, k: int| #[trigger]
        links(t0, u, c, key, g, entry, b, k) && (entry matches Some((_, vh)) ==> kind_of(vh)
            != KIND_INT);
    assert(u[k] == t[k]);
    assert(marks(t[k], seq_off(c)));
    let a = choose|a: int|
        t0.len() <= a && #[trigger] lookup(u.take(b), a, c, key, claimed(u, k), entry);
    assert(k >= t0.len());
    (entry, b)
}

/// A claim of the object or map is that of a call that linked a new number.
#[verifier::rlimit(40)]
proof fn lemma_claims_table(
    ws: Seq<u64>,
    h: Seq<Step>,
    s: Spot,
    key: Seq<char>,
    p: int,
    calls: Seq<Call>,
    y: int,
) -> (r: (int, int, u64, Option<(u32, u64)>, int))
    requires
        all_call(ws, h),
        h.len() <= u64::MAX,
        s.d == 0,
        stands(ws, h, s),
        table_kind(s.kind),
        only_counts(ws, h, p, s, key, calls),
        0 <= y < of_thread(h, p).len(),
        marks(of_thread(h, p)[y], seq_off(s.n)),
    ensures
        0 <= r.0 < calls.len(),
        links_with(of_thread(h, p), s.n, key, calls[r.0], r.1, r.2, r.3, r.4, y),
{
    let t = of_thread(h, p);
    lemma_upheld(ws, h);
    lemma_now(ws, h);
    assert(spot_holds(after(ws, h), s));
    assert(!in_none(calls, y)) by {
        if in_none(calls, y) {
            assert(leaves_number(ws, h, s, key, t[y]));
        }
    }
    let j = choose|j: int| #[trigger] in_nth(calls, j, y);
    let x = calls[j];
    assert(call_counts(t, s.n, key, x));
    let t0 = t.take(x.b);
    let t1 = t.take(x.e);
    let u = t1.take(x.e - 4);
    let (g, i, r) = lemma_call(ws, h, s, key, p, x);
    assert(t1[y] == t[y]);
    if y >= x.e - 4 {
        lemma_saw(ws, h, p, x.e - 4);
        lemma_stands_later(ws, h, place(h, p, x.e - 4), r);
        assert(spot_holds(after(ws, h), r));
        crate::upkeep::lemma_spots_apart(ws, h, s, r);
        assert(t1[x.e - 4] == t[x.e - 4]);
    }
    lemma_one_claim(t0, t1, s.n, key, x.v, y);
    assert forall|z: int| x.b <= z < x.e - 4 && #[trigger] marks(t[z], seq_off(s.n)) implies z
        == y by {
        assert(t1[z] == t[z]);
    }
    if y >= i {
        assert(t.take(x.e - 4)[y] == t[y]);
    }
    let (entry, b) = lemma_new_links(t, s.n, key, x, i, g, y);
    (j, i, g, entry, b)
}

// Counting.

/// How many calls the threads below `m` have made.
pub open spec fn total(calls: spec_fn(int) -> Seq<Call>, m: nat) -> nat
    decreases m,
{
    if m == 0 {
        0
    } else {
        total(calls, (m - 1) as nat) + calls(m - 1).len()
    }
}

/// Call `x` ends with an increment of the number `q`, after the number began to stand.
spec fn ends_on(h: Seq<Step>, p: int, q: Spot, x: Call) -> bool {
    let t = of_thread(h, p);
    &&& 0 <= x.b <= x.e - 4
    &&& x.e <= t.len()
    &&& increment_seen(t.take(x.e), q.n, x.v)
    &&& begun(h, p, since(h, q)) <= x.e - 4
}

/// Access `y` is the claim with which one of the calls begins its increment.
spec fn begins_increment(calls: Seq<Call>, y: int) -> bool {
    exists|j: int| 0 <= j < calls.len() && y == (#[trigger] calls[j]).e - 4
}

/// Thread `p` changes the number `q` with the increments of its calls alone.
spec fn tallies(h: Seq<Step>, p: int, q: Spot, calls: Seq<Call>) -> bool {
    let t = of_thread(h, p);
    &&& forall|j: int| 0 <= j < calls.len() ==> ends_on(h, p, q, #[trigger] calls[j])
    &&& in_turn(calls)
    &&& forall|y: int|
        0 <= y < t.len() && #[trigger] marks(t[y], seq_off(q.n)) ==> begins_increment(calls, y)
}

/// Whoever holds a version has claimed it, and not released it since.
proof fn lemma_open_claim(t: Seq<Event>, off: u64) -> (k: int)
    requires
        claim_of(t, off) is Some,
    ensures
        0 <= k < t.len(),
        marks(t[k], off),
        forall|y: int| k < y < t.len() ==> !(#[trigger] t[y] matches Event::Store { off: o, .. } && o == off),
    decreases t.len(),
{
    if crate::trace::claims(t.last(), off) {
        t.len() - 1
    } else {
        let u = t.drop_last();
        let k = lemma_open_claim(u, off);
        assert(marks(u[k], off));
        assert forall|y: int| k < y < t.len() implies !(#[trigger] t[y] matches Event::Store {
            off: o,
            ..
        } && o == off) by {
            if y < u.len() {
                assert(u[y] == t[y]);
            }
        }
        k
    }
}

/// Outside of its increments a thread does not change the number.
#[verifier::rlimit(40)]
proof fn lemma_gap(ws: Seq<u64>, h: Seq<Step>, q: Spot, p: int, calls: Seq<Call>, y: int)
    requires
        upheld(ws, h),
        stands(ws, h, q),
        q.kind == KIND_INT,
        tallies(h, p, q, calls),
        begun(h, p, since(h, q)) <= y < of_thread(h, p).len(),
        forall|j: int|
            0 <= j < calls.len() ==> !((#[trigger] calls[j]).e - 4 <= y < calls[j].e),
    ensures
        !changes(of_thread(h, p)[y], seq_off(q.n) as int),
        !changes(of_thread(h, p)[y], counter_off(q.n) as int),
{
    let t = of_thread(h, p);
    let e = since(h, q);
    lemma_now(ws, h);
    assert(spot_holds(after(ws, h), q));
    lemma_since(ws, h, q);
    lemma_saw(ws, h, p, y);
    crate::history::lemma_comes_after(ws, h, p, e, y);
    let g = before(h, p, y);
    let z = h.take(place(h, p, y) + 1);
    assert(stands(ws, g, q));
    assert(goes_on(ws, z));
    assert forall|a: int| q.n <= a < q.end() implies !#[trigger] changes(t[y], a) by {
        if changes(t[y], a) {
            lemma_changes_spot(ws, z, q, a);
            if t[y] is Cas {
                assert(marks(t[y], seq_off(q.n)));
                assert(begins_increment(calls, y));
            } else {
                let k = lemma_open_claim(t.take(y), seq_off(q.n));
                assert(marks(t[k], seq_off(q.n)));
                assert(begins_increment(calls, k));
                let j = choose|j: int| 0 <= j < calls.len() && k == (#[trigger] calls[j]).e - 4;
                assert(ends_on(h, p, q, calls[j]));
                let u = t.take(calls[j].e);
                assert(u[u.len() - 1] == t[calls[j].e - 1]);
                assert(t.take(y)[calls[j].e - 1] == t[calls[j].e - 1]);
            }
        }
    }
}

/// Where thread `p` stands after `j` of its calls.
spec fn after_calls(h: Seq<Step>, p: int, q: Spot, calls: Seq<Call>, j: int) -> int {
    if j == 0 {
        begun(h, p, since(h, q))
    } else {
        calls[j - 1].e
    }
}

/// Each call is one increment.
#[verifier::rlimit(40)]
proof fn lemma_thread_tally(ws: Seq<u64>, h: Seq<Step>, q: Spot, p: int, calls: Seq<Call>, j: int)
    requires
        upheld(ws, h),
        stands(ws, h, q),
        q.kind == KIND_INT,
        tallies(h, p, q, calls),
        0 <= j <= calls.len(),
    ensures
        ({
            let s = begun(h, p, since(h, q));
            let u = of_thread(h, p).take(after_calls(h, p, q, calls, j));
            &&& s <= after_calls(h, p, q, calls, j) <= of_thread(h, p).len()
            &&& phase(u, q.n, s) is Outside
            &&& increments(u, q.n, s) == j
        }),
    decreases j,
{
    let t = of_thread(h, p);
    let s = begun(h, p, since(h, q));
    lemma_since(ws, h, q);
    lemma_now(ws, h);
    assert(spot_holds(after(ws, h), q));
    lemma_thread_prefix(h, p, since(h, q));
    if j > 0 {
        lemma_thread_tally(ws, h, q, p, calls, j - 1);
        let a = after_calls(h, p, q, calls, j - 1);
        let x = calls[j - 1];
        assert(ends_on(h, p, q, x));
        assert(a <= x.e - 4) by {
            if j > 1 {
                assert(calls[j - 2].e <= calls[j - 1].b);
            }
        }
        let u = t.take(x.e);
        let v = t.take(x.e - 4);
        assert(u.take(u.len() - 4) =~= v);
        assert(extends(t.take(a), v)) by {
            assert(v.take(a) =~= t.take(a));
        }
        assert forall|y: int| a <= y < v.len() implies !changes(
            #[trigger] v[y],
            seq_off(q.n) as int,
        ) && !changes(v[y], counter_off(q.n) as int) by {
            lemma_between(h, p, q, calls, j - 1, y);
            lemma_gap(ws, h, q, p, calls, y);
        }
        law_elsewhere_counts_nothing(t.take(a), v, q.n, s);
        law_increment_is_one_update(u, q.n, x.v, s);
    }
}

/// What lies between two calls is in none of the increments.
proof fn lemma_between(h: Seq<Step>, p: int, q: Spot, calls: Seq<Call>, j: int, y: int)
    requires
        tallies(h, p, q, calls),
        0 <= j <= calls.len(),
        after_calls(h, p, q, calls, j) <= y,
        j < calls.len() ==> y < calls[j].e - 4,
    ensures
        forall|l: int|
            0 <= l < calls.len() ==> !((#[trigger] calls[l]).e - 4 <= y < calls[l].e),
{
    assert forall|l: int| 0 <= l < calls.len() implies !((#[trigger] calls[l]).e - 4 <= y
        < calls[l].e) by {
        assert(ends_on(h, p, q, calls[l]));
        if l < j - 1 {
            assert(calls[l].e <= calls[j - 1].b);
            assert(ends_on(h, p, q, calls[j - 1]));
        } else if l > j {
            assert(calls[j].e <= calls[l].b);
        }
    }
}

/// The number has advanced by one for each call.
proof fn lemma_tally(ws: Seq<u64>, h: Seq<Step>, q: Spot, calls: spec_fn(int) -> Seq<Call>, m: nat)
    requires
        all_call(ws, h),
        stands(ws, h, q),
        q.kind == KIND_INT,
        forall|i: int| 0 <= i < h.len() ==> 0 <= (#[trigger] h[i]).thread < m,
        forall|p: int| tallies(h, p, q, #[trigger] calls(p)),
    ensures
        counter_at(after(ws, h), q.n as int) == advanced(
            counter_at(after(ws, h.take(since(h, q))), q.n as int),
            total(calls, m),
        ),
{
    let e = since(h, q);
    lemma_upheld(ws, h);
    lemma_now(ws, h);
    assert(spot_holds(after(ws, h), q));
    lemma_since(ws, h, q);
    lemma_even(ws, h, q);
    assert forall|p: int| #[trigger] counts_only(h, p, q.n, e) by {
        lemma_all_of_thread(ws, h, q, p, calls);
    }
    assert(counting(ws, h, q.n, e));
    law_no_lost_updates(ws, h, q.n, m, e);
    lemma_total(ws, h, q, calls, m);
}

proof fn lemma_all_of_thread(
    ws: Seq<u64>,
    h: Seq<Step>,
    q: Spot,
    p: int,
    calls: spec_fn(int) -> Seq<Call>,
)
    requires
        upheld(ws, h),
        stands(ws, h, q),
        q.kind == KIND_INT,
        tallies(h, p, q, calls(p)),
    ensures
        phase(of_thread(h, p), q.n, begun(h, p, since(h, q))) is Outside,
        increments(of_thread(h, p), q.n, begun(h, p, since(h, q))) == calls(p).len(),
{
    let t = of_thread(h, p);
    let s = begun(h, p, since(h, q));
    let xs = calls(p);
    let n = xs.len() as int;
    lemma_thread_tally(ws, h, q, p, xs, n);
    let a = after_calls(h, p, q, xs, n);
    assert forall|y: int| a <= y < t.len() implies !changes(#[trigger] t[y], seq_off(q.n) as int)
        && !changes(t[y], counter_off(q.n) as int) by {
        lemma_between(h, p, q, xs, n, y);
        lemma_gap(ws, h, q, p, xs, y);
    }
    law_elsewhere_counts_nothing(t.take(a), t, q.n, s);
}

proof fn lemma_total(ws: Seq<u64>, h: Seq<Step>, q: Spot, calls: spec_fn(int) -> Seq<Call>, m: nat)
    requires
        upheld(ws, h),
        stands(ws, h, q),
        q.kind == KIND_INT,
        forall|p: int| tallies(h, p, q, #[trigger] calls(p)),
    ensures
        increments_below(h, q.n, m, since(h, q)) == total(calls, m),
    decreases m,
{
    if m > 0 {
        lemma_total(ws, h, q, calls, (m - 1) as nat);
        assert(tallies(h, m - 1, q, calls(m - 1)));
        lemma_all_of_thread(ws, h, q, m - 1, calls);
    }
}

// One number under the key.

/// What a thread did at some moment is where it is in the history.
pub(crate) proof fn lemma_turn_place(ws: Seq<u64>, h: Seq<Step>, x: int)
    requires
        coherent(ws, h),
        0 <= x < h.len(),
    ensures
        ({
            let p = h[x].thread;
            let y = of_thread(h.take(x), p).len() as int;
            0 <= y < of_thread(h, p).len() && of_thread(h, p)[y] == h[x].event && place(h, p, y) == x
        }),
{
    let p = h[x].thread;
    let y = of_thread(h.take(x), p).len() as int;
    lemma_turn(h, p, x);
    lemma_place(ws, h, p, y);
    let z = place(h, p, y);
    if z < x {
        lemma_thread_grows(h, p, z, x);
    } else if x < z {
        lemma_thread_grows(h, p, x, z);
    }
}

/// The first claim of the node from moment `i` on.
proof fn lemma_first_claim(h: Seq<Step>, s: Spot, i: int, j: int) -> (m: int)
    requires
        0 <= i <= j < h.len(),
        marks(h[j].event, seq_off(s.n)),
    ensures
        i <= m <= j,
        marks(h[m].event, seq_off(s.n)),
        unclaimed(h, s, i, m),
    decreases j - i,
{
    if unclaimed(h, s, i, j) {
        j
    } else {
        let x = choose|x: int| i <= x < j && marks((#[trigger] h[x]).event, seq_off(s.n));
        lemma_first_claim(h, s, i, x)
    }
}

/// All threads do nothing but increment the number under `key` of the object or map `s` of the
/// beginning, as far as `s` and the number are concerned.
spec fn all_count(
    ws: Seq<u64>,
    h: Seq<Step>,
    s: Spot,
    key: Seq<char>,
    calls: spec_fn(int) -> Seq<Call>,
) -> bool {
    &&& all_call(ws, h)
    &&& h.len() <= u64::MAX
    &&& s.d == 0
    &&& stands(ws, h, s)
    &&& table_kind(s.kind)
    &&& forall|p: int| only_counts(ws, h, p, s, key, #[trigger] calls(p))
}

/// The claim of the object or map at moment `m` found what was there at that moment, and no number.
#[verifier::rlimit(40)]
proof fn lemma_claim_at(
    ws: Seq<u64>,
    h: Seq<Step>,
    s: Spot,
    key: Seq<char>,
    calls: spec_fn(int) -> Seq<Call>,
    m: int,
) -> (r: (int, int, u64, Option<(u32, u64)>, int))
    requires
        all_count(ws, h, s, key, calls),
        0 <= m < h.len(),
        marks(h[m].event, seq_off(s.n)),
    ensures
        ({
            let p = h[m].thread;
            let y = of_thread(h.take(m), p).len() as int;
            &&& 0 <= y < of_thread(h, p).len()
            &&& place(h, p, y) == m
            &&& 0 <= r.0 < calls(p).len()
            &&& links_with(of_thread(h, p), s.n, key, calls(p)[r.0], r.1, r.2, r.3, r.4, y)
            &&& found_in(after(ws, h.take(m)), s.n, key, r.3)
        }),
{
    let p = h[m].thread;
    let t = of_thread(h, p);
    let y = of_thread(h.take(m), p).len() as int;
    lemma_turn_place(ws, h, m);
    assert(only_counts(ws, h, p, s, key, calls(p)));
    let r = lemma_claims_table(ws, h, s, key, p, calls(p), y);
    let (j, i, g, entry, b) = r;
    let x = calls(p)[j];
    let u = t.take(i);
    assert(u.take(b) =~= t.take(b));
    assert(u[y] == t[y]);
    let k = choose|k: int|
        t.take(x.b).len() <= k && #[trigger] lookup(t.take(b), k, s.n, key, claimed(u, y), entry);
    law_calls_look_up_what_is_there(ws, h, s, p, key, entry, k, b, y);
    r
}

/// From moment `f` on the object or map has the number behind `g`, which is the node `q`, under the
/// key, and nobody changes it; before, nobody found anything there.
spec fn number_from(
    ws: Seq<u64>,
    h: Seq<Step>,
    s: Spot,
    key: Seq<char>,
    g: u64,
    q: Spot,
    f: int,
) -> bool {
    &&& 0 <= f <= h.len()
    &&& !odd(word(after(ws, h.take(f)), s.n + 16))
    &&& unclaimed(h, s, f, h.len() as int)
    &&& slot_of(after(ws, h.take(f)), s.n as int, key) matches Some(x) && val_at(
        after(ws, h.take(f)),
        s.n as int,
        x,
    ) == g
    &&& kind_of(g) == KIND_INT
    &&& q.kind == KIND_INT
    &&& q.n == off_of(g)
    &&& stands(ws, h.take(f), q)
    &&& forall|x: int|
        0 <= x < f ==> odd(word(after(ws, #[trigger] h.take(x)), s.n + 16)) || slot_of(
            after(ws, h.take(x)),
            s.n as int,
            key,
        ) is None
}

/// A number that is there at the beginning stays.
#[verifier::rlimit(40)]
proof fn lemma_there(
    ws: Seq<u64>,
    h: Seq<Step>,
    s: Spot,
    key: Seq<char>,
    calls: spec_fn(int) -> Seq<Call>,
) -> (q: Spot)
    requires
        all_count(ws, h, s, key, calls),
        slot_of(ws, s.n as int, key) is Some,
        kind_of(handle_for(ws, s.n as int, key)) == KIND_INT,
    ensures
        number_from(ws, h, s, key, handle_for(ws, s.n as int, key), q, 0),
        unclaimed(h, s, 0, h.len() as int),
        since(h, q) == 0,
{
    let c = s.n as int;
    let g = handle_for(ws, c, key);
    let y = h.take(0);
    lemma_upheld(ws, h);
    law_calls_are_guarded(ws, h, s);
    assert(y =~= Seq::empty());
    lemma_upheld_take(ws, h, 0);
    lemma_now(ws, y);
    assert(stands(ws, y, s));
    assert(spot_holds(ws, s) && slots_hold(ws, y, s));
    lemma_even(ws, h, s);
    crate::tables::lemma_slot_from(ws, c, encode_utf8(key), 0, s.cap as int);
    let at = slot_of(ws, c, key)->0;
    assert(key_fits(ws, y, key_at(after(ws, y), c, at)));
    assert(value_fits(ws, y, g));
    assert(kind_of(H_INVALID) != KIND_INT);
    let q = choose|q: Spot| #[trigger]
        stands(ws, y, q) && is_value(ws, y, q) && off_of(g) == q.n && kind_of(g) == q.kind;
    if q.d != 0 {
        lemma_made_spot(of_thread(y, q.p), q);
    }
    assert forall|x: int| 0 <= x < h.len() implies !marks(
        (#[trigger] h[x]).event,
        seq_off(s.n),
    ) by {
        if marks(h[x].event, seq_off(s.n)) {
            let m = lemma_first_claim(h, s, 0, x);
            lemma_key_stays(ws, h, s, key, 0, m);
            let r = lemma_claim_at(ws, h, s, key, calls, m);
        }
    }
    q
}

/// With the claim at moment `m`, which is its access `y`, a thread put the number behind `g` under
/// the key, with its call `x`, and released the object or map just before moment `f`.
spec fn puts(
    ws: Seq<u64>,
    h: Seq<Step>,
    s: Spot,
    key: Seq<char>,
    x: Call,
    m: int,
    i: int,
    g: u64,
    f: int,
) -> bool {
    let p = h[m].thread;
    let y = of_thread(h.take(m), p).len() as int;
    &&& 0 <= m < h.len()
    &&& 0 <= y < of_thread(h, p).len()
    &&& place(h, p, y) == m
    &&& call_counts(of_thread(h, p), s.n, key, x)
    &&& new_call(of_thread(h, p), s.n, key, x, i, g)
    &&& x.b <= y < i <= x.e - 4
    &&& f == place(h, p, i - 1) + 1
    &&& m < f <= h.len()
    &&& unclaimed(h, s, 0, m)
    &&& unclaimed(h, s, m + 1, f)
    &&& forall|w: int| m < w < f ==> odd(word(after(ws, #[trigger] h.take(w)), s.n + 16))
    &&& !odd(word(after(ws, h.take(f)), s.n + 16))
    &&& slot_of(after(ws, h.take(f)), s.n as int, key) matches Some(at) && val_at(
        after(ws, h.take(f)),
        s.n as int,
        at,
    ) == g
}

/// A number that is not there at the beginning is put there with the first claim.
#[verifier::rlimit(60)]
#[verifier::spinoff_prover]
proof fn lemma_puts(
    ws: Seq<u64>,
    h: Seq<Step>,
    s: Spot,
    key: Seq<char>,
    calls: spec_fn(int) -> Seq<Call>,
    z: int,
) -> (r: (int, int, int, u64, int))
    requires
        all_count(ws, h, s, key, calls),
        slot_of(ws, s.n as int, key) is None,
        0 <= z < h.len(),
        marks(h[z].event, seq_off(s.n)),
    ensures
        0 <= r.1 < calls(h[r.0].thread).len(),
        puts(ws, h, s, key, calls(h[r.0].thread)[r.1], r.0, r.2, r.3, r.4),
{
    lemma_upheld(ws, h);
    law_calls_are_guarded(ws, h, s);
    lemma_even(ws, h, s);
    assert(h.take(0) =~= Seq::empty());
    let m = lemma_first_claim(h, s, 0, z);
    lemma_key_stays(ws, h, s, key, 0, m);
    let (j, i, g, entry, b) = lemma_claim_at(ws, h, s, key, calls, m);
    assert(entry is None);
    let p = h[m].thread;
    let t = of_thread(h, p);
    let y = of_thread(h.take(m), p).len() as int;
    let x = calls(p)[j];
    assert(only_counts(ws, h, p, s, key, calls(p)));
    assert(call_counts(t, s.n, key, x));
    let f = lemma_release(ws, h, s, key, p, x, i, g, b, y);
    (m, j, i, g, f)
}

/// What holds when the number has been put there.
#[verifier::rlimit(60)]
#[verifier::spinoff_prover]
proof fn lemma_release(
    ws: Seq<u64>,
    h: Seq<Step>,
    s: Spot,
    key: Seq<char>,
    p: int,
    x: Call,
    i: int,
    g: u64,
    b: int,
    y: int,
) -> (f: int)
    requires
        all_call(ws, h),
        h.len() <= u64::MAX,
        s.d == 0,
        stands(ws, h, s),
        table_kind(s.kind),
        x.e <= of_thread(h, p).len(),
        0 <= x.b,
        links_with(of_thread(h, p), s.n, key, x, i, g, None, b, y),
    ensures
        f == place(h, p, i - 1) + 1,
        place(h, p, y) < f <= h.len(),
        unclaimed(h, s, place(h, p, y) + 1, f),
        forall|w: int|
            place(h, p, y) < w < f ==> odd(word(after(ws, #[trigger] h.take(w)), s.n + 16)),
        !odd(word(after(ws, h.take(f)), s.n + 16)),
        slot_of(after(ws, h.take(f)), s.n as int, key) matches Some(at) && val_at(
            after(ws, h.take(f)),
            s.n as int,
            at,
        ) == g,
{
    let t = of_thread(h, p);
    let t0 = t.take(x.b);
    lemma_place(ws, h, p, i - 1);
    lemma_place_order(ws, h, p, y, i - 1);
    let f = place(h, p, i - 1) + 1;
    let d = h.take(f);
    assert(d.drop_last() =~= h.take(f - 1));
    lemma_thread_prefix(h, p, f);
    assert(of_thread(d, p) =~= t.take(i));
    lemma_same_place(h, p, i - 1, f);
    lemma_same_place(h, p, y, f);
    law_calls_stop(ws, h, f);
    assert(stood_at(ws, d, p, t0, s));
    assert(t.take(i)[y] == t[y]);
    lemma_inserted(ws, d, s, p, t0, key, g, b, y);
    law_calls_insert_in_one_step(ws, d, s, p, t0, key, g, b, y);
    lemma_upheld(ws, d);
    law_calls_are_guarded(ws, d, s);
    lemma_alone(ws, d, s, p, y);
    assert forall|w: int| place(h, p, y) + 1 <= w < f implies !marks(
        (#[trigger] h[w]).event,
        seq_off(s.n),
    ) by {
        assert(d[w] == h[w]);
    }
    assert forall|w: int| place(h, p, y) < w < f implies odd(
        word(after(ws, #[trigger] h.take(w)), s.n + 16),
    ) by {
        assert(d.take(w) =~= h.take(w));
        assert(odd(word(after(ws, d.take(w)), s.n + 16)));
    }
    f
}

/// A number that has been put there stays.
#[verifier::rlimit(40)]
proof fn lemma_put_stays(
    ws: Seq<u64>,
    h: Seq<Step>,
    s: Spot,
    key: Seq<char>,
    calls: spec_fn(int) -> Seq<Call>,
    x: Call,
    m: int,
    i: int,
    g: u64,
    f: int,
)
    requires
        all_count(ws, h, s, key, calls),
        puts(ws, h, s, key, x, m, i, g, f),
        kind_of(g) == KIND_INT,
    ensures
        unclaimed(h, s, f, h.len() as int),
{
    lemma_upheld(ws, h);
    law_calls_are_guarded(ws, h, s);
    assert forall|w: int| f <= w < h.len() implies !marks(
        (#[trigger] h[w]).event,
        seq_off(s.n),
    ) by {
        if marks(h[w].event, seq_off(s.n)) {
            let m1 = lemma_first_claim(h, s, f, w);
            lemma_key_stays(ws, h, s, key, f, m1);
            let r1 = lemma_claim_at(ws, h, s, key, calls, m1);
        }
    }
}

/// A number that is not there at the beginning is put there once.
#[verifier::rlimit(60)]
#[verifier::spinoff_prover]
proof fn lemma_put_there(
    ws: Seq<u64>,
    h: Seq<Step>,
    s: Spot,
    key: Seq<char>,
    calls: spec_fn(int) -> Seq<Call>,
    x: Call,
    m: int,
    i: int,
    g: u64,
    f: int,
) -> (q: Spot)
    requires
        all_count(ws, h, s, key, calls),
        slot_of(ws, s.n as int, key) is None,
        puts(ws, h, s, key, x, m, i, g, f),
    ensures
        number_from(ws, h, s, key, g, q, f),
        forall|w: int|
            0 <= w < h.len() && marks((#[trigger] h[w]).event, seq_off(s.n)) ==> w == m,
        f <= place(h, h[m].thread, x.e - 4),
        counter_at(after(ws, h.take(since(h, q))), q.n as int) == 0,
{
    let c = s.n as int;
    let p = h[m].thread;
    let t = of_thread(h, p);
    lemma_upheld(ws, h);
    law_calls_are_guarded(ws, h, s);
    lemma_even(ws, h, s);
    assert(h.take(0) =~= Seq::empty());
    let q = lemma_new_call(ws, h, s, key, p, x, i, g);
    assert(kind_of(g) == KIND_INT) by {
        reveal(new_call);
    }
    lemma_put_stays(ws, h, s, key, calls, x, m, i, g, f);
    assert forall|w: int| 0 <= w < f implies odd(
        word(after(ws, #[trigger] h.take(w)), s.n + 16),
    ) || slot_of(after(ws, h.take(w)), c, key) is None by {
        if w <= m {
            lemma_key_stays(ws, h, s, key, 0, w);
        }
    }
    lemma_place(ws, h, p, i - 1);
    lemma_thread_prefix(h, p, f);
    assert(h.take(f).drop_last() =~= h.take(f - 1));
    assert(of_thread(h.take(f), p) =~= t.take(i));
    lemma_spot_earlier(of_thread(h.take(f), p), t, q);
    lemma_zero_at_first(ws, h, q);
    lemma_place_order(ws, h, p, i - 1, x.e - 4);
    lemma_place(ws, h, p, x.e - 4);
    q
}

/// A number that was made for zero is zero when it begins to stand.
proof fn lemma_zero_at_first(ws: Seq<u64>, h: Seq<Step>, q: Spot)
    requires
        upheld(ws, h),
        stands(ws, h, q),
        q.d > 0,
        q.kind == KIND_INT,
        scalar_at(of_thread(h, q.p), q, Value::Int(0)),
    ensures
        counter_at(after(ws, h.take(since(h, q))), q.n as int) == 0,
{
    let t = of_thread(h, q.p);
    let v = Value::Int(0);
    let w = node_stores(q.n as int, v);
    lemma_handle(q.kind, q.n);
    lemma_made_spot(t, q);
    lemma_saw(ws, h, q.p, q.d - 1);
    assert(v.payload().len() == 1);
    assert(w.len() == 5);
    assert(w[4] == t[q.d - 1]) by {
        assert(t.take(q.d).skip(q.d - 5)[4] == t[q.d - 1]);
    }
    lemma_now(ws, h);
    assert(spot_holds(after(ws, h), q));
    assert(w[4] == crate::record::stores(q.n + NODE_HDR, v.payload())[0]);
    assert(0i64 as u64 == 0) by (bit_vector);
    assert(0u64 as i64 == 0) by (bit_vector);
    lemma_effect(after(ws, before(h, q.p, q.d - 1)), t[q.d - 1], q.n + NODE_HDR);
}

/// A call that linked a new number has claimed the object or map.
#[verifier::rlimit(40)]
proof fn lemma_new_claims(t: Seq<Event>, c: u64, key: Seq<char>, x: Call, i: int, g: u64) -> (y: int)
    requires
        0 <= x.b <= i <= x.e - 4,
        x.e <= t.len(),
        new_call(t, c, key, x, i, g),
    ensures
        x.b <= y < i,
        marks(t[y], seq_off(c)),
{
    reveal(new_call);
    let t0 = t.take(x.b);
    let u = t.take(i);
    assert(t.take(x.e).take(i) =~= u);
    let (entry, b, k) = choose|entry: Option<(u32, u64)>, b: int, k: int| #[trigger]
        links(t0, u, c, key, g, entry, b, k) && (entry matches Some((_, vh)) ==> kind_of(vh)
            != KIND_INT);
    assert(u[k] == t[k]);
    let a = choose|a: int|
        t0.len() <= a && #[trigger] lookup(u.take(b), a, c, key, claimed(u, k), entry);
    k
}

/// What a call that found a number had found, when.
#[verifier::rlimit(40)]
proof fn lemma_found_when(
    ws: Seq<u64>,
    h: Seq<Step>,
    s: Spot,
    key: Seq<char>,
    p: int,
    x: Call,
    i: int,
    g: u64,
)
    requires
        all_call(ws, h),
        h.len() <= u64::MAX,
        s.d == 0,
        stands(ws, h, s),
        table_kind(s.kind),
        0 <= x.b < i <= x.e - 4,
        x.e <= of_thread(h, p).len(),
        found_call(of_thread(h, p), s.n, key, x, i, g),
    ensures
        ({
            let now = after(ws, before(h, p, i - 1));
            &&& !odd(word(now, s.n + 16))
            &&& slot_of(now, s.n as int, key) matches Some(at) && val_at(now, s.n as int, at) == g
        }),
{
    reveal(found_call);
    let t = of_thread(h, p);
    let t0 = t.take(x.b);
    let t1 = t.take(x.e);
    let (seq, slot) = choose|seq: u64, slot: u32| #[trigger]
        counts_found(t0, t1, s.n, key, x.v, i, seq, slot, g);
    let u = t.take(i);
    assert(t1.take(i) =~= u);
    let k = choose|k: int|
        t0.len() <= k && #[trigger] lookup(u, k, s.n, key, seq, Some((slot, g)));
    law_calls_look_up_at_one_moment(ws, h, s, p, key, seq, Some((slot, g)), k, i);
}

/// The calls that claim the object or map, if any, increment the number behind `g`, from moment `f`
/// on.
spec fn new_on(
    h: Seq<Step>,
    s: Spot,
    calls: spec_fn(int) -> Seq<Call>,
    g: u64,
    f: int,
) -> bool {
    forall|p: int, j: int, y: int|
        0 <= j < calls(p).len() && calls(p)[j].b <= y < calls(p)[j].e - 4 && 0 <= y < of_thread(
            h,
            p,
        ).len() && marks(#[trigger] of_thread(h, p)[y], seq_off(s.n)) ==> on_number(
            h,
            p,
            #[trigger] calls(p)[j],
            g,
            f,
        )
}

spec fn on_number(h: Seq<Step>, p: int, x: Call, g: u64, f: int) -> bool {
    &&& increment_seen(of_thread(h, p).take(x.e), off_of(g), x.v)
    &&& f <= place(h, p, x.e - 4)
}

/// Every call increments the one number.
#[verifier::rlimit(40)]
proof fn lemma_on_number(
    ws: Seq<u64>,
    h: Seq<Step>,
    s: Spot,
    key: Seq<char>,
    calls: spec_fn(int) -> Seq<Call>,
    g: u64,
    q: Spot,
    f: int,
    p: int,
    j: int,
)
    requires
        all_count(ws, h, s, key, calls),
        number_from(ws, h, s, key, g, q, f),
        new_on(h, s, calls, g, f),
        0 <= j < calls(p).len(),
    ensures
        on_number(h, p, calls(p)[j], g, f),
{
    let x = calls(p)[j];
    let t = of_thread(h, p);
    lemma_upheld(ws, h);
    law_calls_are_guarded(ws, h, s);
    assert(only_counts(ws, h, p, s, key, calls(p)));
    assert(call_counts(t, s.n, key, x));
    let (g1, i, r) = lemma_call(ws, h, s, key, p, x);
    if new_call(t, s.n, key, x, i, g1) {
        let y = lemma_new_claims(t, s.n, key, x, i, g1);
        assert(marks(of_thread(h, p)[y], seq_off(s.n)));
    } else {
        lemma_found_when(ws, h, s, key, p, x, i, g1);
        lemma_saw(ws, h, p, i - 1);
        let w = place(h, p, i - 1);
        assert(f <= w) by {
            if w < f {
                assert(h.take(w) == before(h, p, i - 1));
            }
        }
        lemma_key_stays(ws, h, s, key, f, w);
        assert(g1 == g);
        lemma_place_order(ws, h, p, i - 1, x.e - 4);
    }
}

/// The number has advanced by one for each call.
#[verifier::rlimit(40)]
proof fn lemma_number_tally(
    ws: Seq<u64>,
    h: Seq<Step>,
    s: Spot,
    key: Seq<char>,
    calls: spec_fn(int) -> Seq<Call>,
    m: nat,
    g: u64,
    q: Spot,
    f: int,
)
    requires
        all_count(ws, h, s, key, calls),
        number_from(ws, h, s, key, g, q, f),
        new_on(h, s, calls, g, f),
        forall|i: int| 0 <= i < h.len() ==> 0 <= (#[trigger] h[i]).thread < m,
    ensures
        slot_of(after(ws, h), s.n as int, key) is Some,
        value_at(after(ws, h), handle_for(after(ws, h), s.n as int, key)) == Value::Int(
            advanced(counter_at(after(ws, h.take(since(h, q))), q.n as int), total(calls, m)),
        ),
{
    lemma_upheld(ws, h);
    law_calls_are_guarded(ws, h, s);
    lemma_key_stays(ws, h, s, key, f, h.len() as int);
    assert(h.take(h.len() as int) =~= h);
    lemma_stands_later(ws, h, f, q);
    lemma_since(ws, h, q);
    assert(since(h, q) <= f);
    assert forall|p: int| tallies(h, p, q, #[trigger] calls(p)) by {
        let xs = calls(p);
        let t = of_thread(h, p);
        assert(only_counts(ws, h, p, s, key, xs));
        assert forall|j: int| 0 <= j < xs.len() implies ends_on(h, p, q, #[trigger] xs[j]) by {
            assert(call_counts(t, s.n, key, xs[j]));
            lemma_on_number(ws, h, s, key, calls, g, q, f, p, j);
            lemma_place(ws, h, p, xs[j].e - 4);
            let w = place(h, p, xs[j].e - 4);
            assert(h.take(w).take(since(h, q)) =~= h.take(since(h, q)));
            lemma_thread_prefix(h.take(w), p, since(h, q));
        }
        assert forall|y: int| 0 <= y < t.len() && #[trigger] marks(t[y], seq_off(q.n)) implies begins_increment(
            xs,
            y,
        ) by {
            let j = lemma_claims_number(ws, h, s, key, p, xs, y, q);
            assert(xs[j].e - 4 == y);
        }
    }
    lemma_tally(ws, h, q, calls, m);
    assert(kind_of(H_INVALID) != KIND_INT);
}

/// The object or map at `c` of the region `ws`.
pub open spec fn table_spot(ws: Seq<u64>, c: u64) -> Spot {
    Spot { n: c, kind: tag_of(ws, c as int), cap: cap_of(ws, c as int) as u32, p: 0, d: 0 }
}

/// No lost updates: threads call `increment_counter` on one key of an object or map, which is
/// absent or has a number, and change neither the container nor the number with what else they do.
/// Whatever the order in which their accesses follow each other, the number under the key is in the
/// end what it was at the beginning, or zero, one up for each of the calls.
#[verifier::rlimit(60)]
pub proof fn law_calls_lose_no_update(
    ws: Seq<u64>,
    h: Seq<Step>,
    c: u64,
    key: Seq<char>,
    calls: spec_fn(int) -> Seq<Call>,
    m: nat,
)
    requires
        all_call(ws, h),
        h.len() <= u64::MAX,
        is_table(ws, c as int),
        slot_of(ws, c as int, key) is None || kind_of(handle_for(ws, c as int, key)) == KIND_INT,
        forall|i: int| 0 <= i < h.len() ==> 0 <= (#[trigger] h[i]).thread < m,
        forall|p: int| only_counts(ws, h, p, table_spot(ws, c), key, #[trigger] calls(p)),
    ensures
        slot_of(ws, c as int, key) is Some ==> value_at(
            after(ws, h),
            handle_for(after(ws, h), c as int, key),
        ) == Value::Int(
            advanced(
                counter_at(ws, off_of(handle_for(ws, c as int, key)) as int),
                total(calls, m),
            ),
        ),
        slot_of(ws, c as int, key) is None && total(calls, m) > 0 ==> value_at(
            after(ws, h),
            handle_for(after(ws, h), c as int, key),
        ) == Value::Int(advanced(0, total(calls, m))),
{
    let s = table_spot(ws, c);
    assert(stands(ws, h, s));
    assert(all_count(ws, h, s, key, calls));
    lemma_upheld(ws, h);
    law_calls_are_guarded(ws, h, s);
    assert(h.take(0) =~= Seq::empty());
    if slot_of(ws, c as int, key) is Some {
        let g = handle_for(ws, c as int, key);
        let q = lemma_there(ws, h, s, key, calls);
        assert(new_on(h, s, calls, g, 0)) by {
            assert forall|p: int, y: int|
                0 <= y < of_thread(h, p).len() && marks(
                    #[trigger] of_thread(h, p)[y],
                    seq_off(s.n),
                ) implies false by {
                lemma_place(ws, h, p, y);
                assert(marks(h[place(h, p, y)].event, seq_off(s.n)));
            }
        }
        lemma_number_tally(ws, h, s, key, calls, m, g, q, 0);
    } else if total(calls, m) > 0 {
        let z = lemma_some_claim(ws, h, s, key, calls, m);
        let (w, j, i, g, f) = lemma_puts(ws, h, s, key, calls, z);
        let p1 = h[w].thread;
        let x1 = calls(p1)[j];
        let q = lemma_put_there(ws, h, s, key, calls, x1, w, i, g, f);
        lemma_new_on(ws, h, s, key, calls, w, j, i, g, f);
        lemma_number_tally(ws, h, s, key, calls, m, g, q, f);
    }
}

/// The one call that claims the object or map increments the number that it put there.
#[verifier::rlimit(40)]
proof fn lemma_new_on(
    ws: Seq<u64>,
    h: Seq<Step>,
    s: Spot,
    key: Seq<char>,
    calls: spec_fn(int) -> Seq<Call>,
    w: int,
    j1: int,
    i: int,
    g: u64,
    f: int,
)
    requires
        all_count(ws, h, s, key, calls),
        0 <= j1 < calls(h[w].thread).len(),
        puts(ws, h, s, key, calls(h[w].thread)[j1], w, i, g, f),
        f <= place(h, h[w].thread, calls(h[w].thread)[j1].e - 4),
        forall|z: int|
            0 <= z < h.len() && marks((#[trigger] h[z]).event, seq_off(s.n)) ==> z == w,
    ensures
        new_on(h, s, calls, g, f),
{
    let p1 = h[w].thread;
    let y1 = of_thread(h.take(w), p1).len() as int;
    let x1 = calls(p1)[j1];
    assert(increment_seen(of_thread(h, p1).take(x1.e), off_of(g), x1.v)) by {
        reveal(new_call);
    }
    assert forall|p: int, j: int, y: int|
        0 <= j < calls(p).len() && calls(p)[j].b <= y < calls(p)[j].e - 4 && 0 <= y < of_thread(
            h,
            p,
        ).len() && marks(#[trigger] of_thread(h, p)[y], seq_off(s.n)) implies on_number(
        h,
        p,
        #[trigger] calls(p)[j],
        g,
        f,
    ) by {
        lemma_place(ws, h, p, y);
        assert(marks(h[place(h, p, y)].event, seq_off(s.n)));
        assert(p == p1 && y == y1);
        assert(only_counts(ws, h, p, s, key, calls(p)));
        assert(call_counts(of_thread(h, p), s.n, key, calls(p)[j]));
        if j < j1 {
            assert(calls(p)[j].e <= calls(p)[j1].b);
        } else if j1 < j {
            assert(calls(p)[j1].e <= calls(p)[j].b);
        }
    }
}

/// Where there is no number yet, one of the calls claims the object or map.
#[verifier::rlimit(40)]
proof fn lemma_some_claim(
    ws: Seq<u64>,
    h: Seq<Step>,
    s: Spot,
    key: Seq<char>,
    calls: spec_fn(int) -> Seq<Call>,
    m: nat,
) -> (z: int)
    requires
        all_count(ws, h, s, key, calls),
        slot_of(ws, s.n as int, key) is None,
        total(calls, m) > 0,
    ensures
        0 <= z < h.len(),
        marks(h[z].event, seq_off(s.n)),
{
    let p = lemma_some_call(calls, m);
    let t = of_thread(h, p);
    let x = calls(p)[0];
    lemma_upheld(ws, h);
    law_calls_are_guarded(ws, h, s);
    lemma_even(ws, h, s);
    assert(h.take(0) =~= Seq::empty());
    assert(only_counts(ws, h, p, s, key, calls(p)));
    assert(call_counts(t, s.n, key, x));
    let (g, i, r) = lemma_call(ws, h, s, key, p, x);
    if new_call(t, s.n, key, x, i, g) {
        let y = lemma_new_claims(t, s.n, key, x, i, g);
        lemma_place(ws, h, p, y);
        place(h, p, y)
    } else {
        lemma_found_when(ws, h, s, key, p, x, i, g);
        lemma_saw(ws, h, p, i - 1);
        let w = place(h, p, i - 1);
        if unclaimed(h, s, 0, w) {
            lemma_key_stays(ws, h, s, key, 0, w);
        }
        choose|z: int| 0 <= z < w && marks((#[trigger] h[z]).event, seq_off(s.n))
    }
}

proof fn lemma_some_call(calls: spec_fn(int) -> Seq<Call>, m: nat) -> (p: int)
    requires
        total(calls, m) > 0,
    ensures
        calls(p).len() > 0,
    decreases m,
{
    if calls(m - 1).len() > 0 {
        m - 1
    } else {
        lemma_some_call(calls, (m - 1) as nat)
    }
}

} // verus!
