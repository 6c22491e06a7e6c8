//! Threads that set one absent key.
use crate::arena::{odd, SIZE_HEADER};
use crate::attempts::{claims_found, claims_once, last_claim, quiet, rewrites_found, unclaiming};
use crate::calls::{
    law_calls_are_guarded, law_calls_insert_in_one_step, law_calls_link_in_one_step,
    law_calls_look_up_at_one_moment, law_calls_look_up_what_is_there, law_calls_stop, lemma_even,
    stood_at,
};
use crate::graph::{
    found_in, key_linked, key_set, links, looked_up, lookup, overwrites, overwrites_found,
};
use crate::history::{
    after, answers, lemma_effect, lemma_place, lemma_place_order, lemma_thread_prefix, of_thread,
    place, Step,
};
use crate::layout::{cap_of, count_of, is_table, key_at, slot_off, table_kind, val_at};
use crate::linear::{before_last, held_to_the_end};
use crate::memory::{lemma_word_put, put, word, Event};
use crate::record::{node_made, slot_at, store, window_from};
use crate::standing::{is_value, stands, value_fits, Spot};
use crate::tables::{has_key_at, one_up, revalued, slot_of};
use crate::tally::{
    lemma_alone, lemma_inserted, lemma_key_stays, lemma_node_stays, lemma_released, lemma_same_key,
    lemma_turn_place, table_spot, unclaimed,
};
use crate::trace::{claimed, marks, seq_off};
use crate::upholding::lemma_upheld;
use crate::upkeep::{
    all_call, before, lemma_now, lemma_same_place, lemma_saw, lemma_upheld_take, slots_hold,
    spot_holds,
};
use crate::value::{container_kind, kind_of, off_of, Value, H_INVALID, OFFSET_LIMIT};
use vstd::prelude::*;
use vstd::utf8::encode_utf8;

verus! {

/// A call that a thread made with its accesses from `b` to `e`, to set a key to `v`.
pub struct Put {
    pub b: int,
    pub e: int,
    pub v: Value,
}

/// The call set `key` of the object or map at `c`.
pub open spec fn call_puts(t: Seq<Event>, c: u64, key: Seq<char>, x: Put) -> bool {
    &&& 0 <= x.b <= x.e <= t.len()
    &&& !x.v.is_container()
    &&& key_set(t.take(x.b), t.take(x.e), c, key, x.v)
}

/// Access `y` is part of call `j`.
pub open spec fn in_put(calls: Seq<Put>, j: int, y: int) -> bool {
    0 <= j < calls.len() && calls[j].b <= y < calls[j].e
}

/// Access `y` is part of none of the calls.
pub open spec fn in_no_put(calls: Seq<Put>, y: int) -> bool {
    forall|j: int| !#[trigger] in_put(calls, j, y)
}

/// Thread `p` has made the calls `calls`, which set `key` of the object or map `s`. With what else
/// it has done it did not change `s`.
pub open spec fn only_puts(
    h: Seq<Step>,
    p: int,
    s: Spot,
    key: Seq<char>,
    calls: Seq<Put>,
) -> bool {
    let t = of_thread(h, p);
    &&& forall|j: int| 0 <= j < calls.len() ==> call_puts(t, s.n, key, #[trigger] calls[j])
    &&& forall|y: int|
        0 <= y < t.len() && #[trigger] in_no_put(calls, y) ==> !marks(t[y], seq_off(s.n))
}

/// The object or map at `c` has `key` once, in slot `at`, with a scalar, and `n` keys in all.
pub open spec fn has_once(ws: Seq<u64>, c: int, key: Seq<char>, at: int, n: u64) -> bool {
    &&& 0 <= at < cap_of(ws, c)
    &&& has_key_at(ws, c, at, encode_utf8(key))
    &&& forall|y: int|
        0 <= y < cap_of(ws, c) && #[trigger] has_key_at(ws, c, y, encode_utf8(key)) ==> y == at
    &&& !container_kind(kind_of(val_at(ws, c, at)))
    &&& count_of(ws, c) == n
}

/// The handle `g` leads to a node that one of the calls has made for what it set the key to.
pub open spec fn put_by(
    h: Seq<Step>,
    calls: spec_fn(int) -> Seq<Put>,
    g: u64,
    p: int,
    j: int,
) -> bool {
    let x = calls(p)[j];
    let t = of_thread(h, p);
    0 <= j < calls(p).len() && node_made(t.take(x.b), t.take(x.e), g, x.v)
}

/// What holds at moment `x`: somebody is changing the object or map; or nobody has claimed it yet;
/// or it has the key once, and one key more than at the beginning.
spec fn settled(
    ws: Seq<u64>,
    h: Seq<Step>,
    s: Spot,
    key: Seq<char>,
    calls: spec_fn(int) -> Seq<Put>,
    x: int,
) -> bool {
    let xs = after(ws, h.take(x));
    let c = s.n as int;
    ||| odd(word(xs, c + 16))
    ||| unclaimed(h, s, 0, x)
    ||| exists|at: int, p: int, j: int| #[trigger]
        once_by(ws, h, s, key, calls, x, at, p, j)
}

spec fn once_by(
    ws: Seq<u64>,
    h: Seq<Step>,
    s: Spot,
    key: Seq<char>,
    calls: spec_fn(int) -> Seq<Put>,
    x: int,
    at: int,
    p: int,
    j: int,
) -> bool {
    let xs = after(ws, h.take(x));
    let c = s.n as int;
    &&& has_once(xs, c, key, at, one_up(count_of(ws, c)))
    &&& put_by(h, calls, val_at(xs, c, at), p, j)
}

/// All threads do nothing to the object or map `s` of the beginning but set `key`, which it does
/// not have.
spec fn all_put(
    ws: Seq<u64>,
    h: Seq<Step>,
    s: Spot,
    key: Seq<char>,
    calls: spec_fn(int) -> Seq<Put>,
) -> bool {
    &&& all_call(ws, h)
    &&& h.len() <= u64::MAX
    &&& s.d == 0
    &&& stands(ws, h, s)
    &&& table_kind(s.kind)
    &&& slot_of(ws, s.n as int, key) is None
    &&& forall|p: int| only_puts(h, p, s, key, #[trigger] calls(p))
}

/// What was found under the key is not the object or map itself.
#[verifier::rlimit(40)]
proof fn lemma_found_other(
    ws: Seq<u64>,
    h: Seq<Step>,
    s: Spot,
    key: Seq<char>,
    calls: spec_fn(int) -> Seq<Put>,
    p: int,
    k: int,
    i: int,
    seq: u64,
    slot: u32,
    g: u64,
)
    requires
        all_put(ws, h, s, key, calls),
        0 <= k < i <= of_thread(h, p).len(),
        lookup(of_thread(h, p).take(i), k, s.n, key, seq, Some((slot, g))),
        settled(ws, h, s, key, calls, place(h, p, i - 1)),
    ensures
        off_of(g) != s.n,
        SIZE_HEADER <= off_of(g),
{
    let c = s.n as int;
    lemma_upheld(ws, h);
    law_calls_are_guarded(ws, h, s);
    lemma_even(ws, h, s);
    assert(h.take(0) =~= Seq::empty());
    law_calls_look_up_at_one_moment(ws, h, s, p, key, seq, Some((slot, g)), k, i);
    lemma_saw(ws, h, p, i - 1);
    let x = place(h, p, i - 1);
    let y = before(h, p, i - 1);
    let xs = after(ws, y);
    assert(stands(ws, y, s));
    assert(spot_holds(xs, s) && slots_hold(ws, y, s));
    if unclaimed(h, s, 0, x) {
        lemma_key_stays(ws, h, s, key, 0, x);
    }
    let (at, q, j) = choose|at: int, q: int, j: int| #[trigger]
        once_by(ws, h, s, key, calls, x, at, q, j);
    crate::tables::lemma_slot_from(xs, c, encode_utf8(key), 0, s.cap as int);
    assert(val_at(xs, c, at) == g);
    assert(crate::standing::key_fits(ws, y, key_at(xs, c, at)));
    assert(value_fits(ws, y, g));
    crate::value::law_handle_parts(g);
    if g != H_INVALID {
        let r = choose|r: Spot| #[trigger]
            stands(ws, y, r) && is_value(ws, y, r) && off_of(g) == r.n && kind_of(g) == r.kind;
        assert(spot_holds(xs, r));
        crate::upkeep::lemma_spots_apart(ws, y, s, r);
    } else {
        lemma_put_some(h, calls, g, q, j);
    }
}

/// A node that was made has a handle.
proof fn lemma_put_some(h: Seq<Step>, calls: spec_fn(int) -> Seq<Put>, g: u64, p: int, j: int)
    requires
        put_by(h, calls, g, p, j),
        !calls(p)[j].v.is_container(),
    ensures
        g != H_INVALID,
{
    crate::value::law_handle_parts(g);
}

/// What a call that claims the object or map has done: with access `y` it claimed it, for what it
/// had looked up, and linked the handle `g` to the key; with its last access it released it.
spec fn puts_with(
    t: Seq<Event>,
    c: u64,
    key: Seq<char>,
    x: Put,
    g: u64,
    entry: Option<(u32, u64)>,
    i: int,
    y: int,
) -> bool {
    &&& x.b <= y < x.e <= t.len()
    &&& links(t.take(x.b), t.take(x.e), c, key, g, entry, i, y)
    &&& node_made(t.take(x.b), t.take(x.e), g, x.v)
}

/// What is found under the key is not the object or map itself, as far as the call has claimed what
/// it had found.
#[verifier::rlimit(40)]
proof fn lemma_claims_other(
    ws: Seq<u64>,
    h: Seq<Step>,
    s: Spot,
    key: Seq<char>,
    calls: spec_fn(int) -> Seq<Put>,
    p: int,
    m: int,
    y: int,
    v: Value,
)
    requires
        all_put(ws, h, s, key, calls),
        0 <= y < m <= of_thread(h, p).len(),
        forall|w: int| 0 <= w < place(h, p, y) ==> #[trigger] settled(ws, h, s, key, calls, w),
    ensures
        !claims_found(of_thread(h, p).take(m), y, seq_off(s.n), s.n, key, v),
{
    let t = of_thread(h, p);
    let u = t.take(m);
    lemma_upheld(ws, h);
    lemma_now(ws, h);
    assert(spot_holds(after(ws, h), s));
    if claims_found(u, y, seq_off(s.n), s.n, key, v) {
        let (g, i, z) = choose|g: u64, i: int, z: int| #[trigger]
            rewrites_found(u, y, seq_off(s.n), s.n, key, v, g, i, z);
        let (seq, slot) = choose|seq: u64, slot: u32| #[trigger]
            looked_up(Seq::empty(), u.take(i), s.n, key, seq, Some((slot, g)));
        assert(u.take(i) =~= t.take(i));
        let k = choose|k: int|
            Seq::<Event>::empty().len() <= k && #[trigger] lookup(
                t.take(i),
                k,
                s.n,
                key,
                seq,
                Some((slot, g)),
            );
        lemma_place(ws, h, p, i - 1);
        lemma_place(ws, h, p, y);
        lemma_place_order(ws, h, p, i - 1, y);
        assert(settled(ws, h, s, key, calls, place(h, p, i - 1)));
        lemma_found_other(ws, h, s, key, calls, p, k, i, seq, slot, g);
        crate::value::law_handle_parts(g);
    }
}

/// A claim of the object or map is that of a call that linked a handle.
#[verifier::rlimit(60)]
#[verifier::spinoff_prover]
proof fn lemma_put_claims(
    ws: Seq<u64>,
    h: Seq<Step>,
    s: Spot,
    key: Seq<char>,
    calls: spec_fn(int) -> Seq<Put>,
    p: int,
    y: int,
) -> (r: (int, u64, Option<(u32, u64)>, int))
    requires
        all_put(ws, h, s, key, calls),
        0 <= y < of_thread(h, p).len(),
        marks(of_thread(h, p)[y], seq_off(s.n)),
        forall|w: int| 0 <= w < place(h, p, y) ==> #[trigger] settled(ws, h, s, key, calls, w),
    ensures
        0 <= r.0 < calls(p).len(),
        puts_with(of_thread(h, p), s.n, key, calls(p)[r.0], r.1, r.2, r.3, y),
{
    let t = of_thread(h, p);
    lemma_upheld(ws, h);
    lemma_now(ws, h);
    assert(spot_holds(after(ws, h), s));
    assert(only_puts(h, p, s, key, calls(p)));
    let xs = calls(p);
    assert(!in_no_put(xs, y));
    let j = choose|j: int| #[trigger] in_put(xs, j, y);
    let x = xs[j];
    assert(call_puts(t, s.n, key, x));
    let t0 = t.take(x.b);
    let t1 = t.take(x.e);
    reveal(quiet);
    assert(t1[y] == t[y]);
    if overwrites_found(t0, t1, s.n, key, x.v) && quiet(t0, t1, s.n, key, Some(x.v)) {
        assert(marks(t1[y], seq_off(s.n)));
        lemma_claims_other(ws, h, s, key, calls, p, x.e, y, x.v);
    }
    let g = choose|g: u64| #[trigger]
        key_linked(t0, t1, s.n, key, g) && node_made(t0, t1, g, x.v);
    let (entry, i, k) = choose|entry: Option<(u32, u64)>, i: int, k: int| #[trigger]
        links(t0, t1, s.n, key, g, entry, i, k);
    let a = choose|a: int|
        t0.len() <= a && #[trigger] lookup(t1.take(i), a, s.n, key, claimed(t1, k), entry);
    let m = lemma_one_put_claim(t0, t1, s.n, key, x.v, y, k);
    if k != y {
        let z = if k < y {
            k
        } else {
            y
        };
        assert(t1.take(m) =~= t.take(m));
        lemma_place(ws, h, p, z);
        lemma_place(ws, h, p, y);
        lemma_place_order(ws, h, p, z, y);
        lemma_claims_other(ws, h, s, key, calls, p, m, z, x.v);
    }
    (j, g, entry, i)
}

/// Of two claims of the object or map the earlier one is of what was found.
proof fn lemma_one_put_claim(
    t0: Seq<Event>,
    t1: Seq<Event>,
    c: u64,
    key: Seq<char>,
    v: Value,
    y: int,
    k: int,
) -> (m: int)
    requires
        claims_once(t0, t1, c, key, Some(v)),
        SIZE_HEADER <= c < OFFSET_LIMIT,
        t0.len() <= y < t1.len(),
        t0.len() <= k < t1.len(),
        marks(t1[y], seq_off(c)),
        marks(t1[k], seq_off(c)),
    ensures
        y <= m <= t1.len(),
        k <= m,
        y < k ==> claims_found(t1.take(m), y, seq_off(c), c, key, v),
        k < y ==> claims_found(t1.take(m), k, seq_off(c), c, key, v),
{
    reveal(claims_once);
    reveal(quiet);
    reveal(unclaiming);
    let m = choose|m: int| #[trigger] last_claim(t0, t1, c, key, Some(v), m);
    assert(y <= m && k <= m);
    if y < m {
        assert(marks(t1.take(m)[y], seq_off(c)));
    }
    if k < m {
        assert(marks(t1.take(m)[k], seq_off(c)));
    }
    m
}

/// The words of an object or map in which a slot has a new value.
proof fn lemma_revalued_words(ws: Seq<u64>, c: int, x: int, child: u64, hi: int)
    requires
        0 <= x,
        SIZE_HEADER <= c,
        c % 8 == 0,
        slot_off(c, x) + 16 <= hi <= 8 * ws.len(),
    ensures
        word(revalued(ws, c, x, child), slot_off(c, x) + 8) == child,
        word(revalued(ws, c, x, child), c + 24) == word(ws, c + 24),
        forall|y: int|
            0 <= y && slot_off(c, y) + 16 <= hi ==> #[trigger] key_at(
                revalued(ws, c, x, child),
                c,
                y,
            ) == key_at(ws, c, y),
{
    let at = slot_off(c, x) + 8;
    let w = put(ws, at, child);
    let bump = crate::trace::bumped(crate::layout::seq_of(w, c));
    assert forall|off: int| c + 24 <= off && off % 8 == 0 && off + 8 <= hi implies #[trigger] word(
        revalued(ws, c, x, child),
        off,
    ) == if off == at {
        child
    } else {
        word(ws, off)
    } by {
        lemma_word_put(ws, at, child, off);
        lemma_word_put(w, c + 16, bump, off);
    }
}

/// A key that has been linked anew is where it was, with its new handle.
#[verifier::rlimit(80)]
#[verifier::spinoff_prover]
proof fn lemma_relinked(
    ws: Seq<u64>,
    h: Seq<Step>,
    s: Spot,
    p: int,
    t0: Seq<Event>,
    key: Seq<char>,
    child: u64,
    slot: u32,
    vh: u64,
    i: int,
    k: int,
    n: u64,
)
    requires
        all_call(ws, h),
        h.len() <= u64::MAX,
        stood_at(ws, h, p, t0, s),
        place(h, p, of_thread(h, p).len() - 1) == h.len() - 1,
        links(t0, of_thread(h, p), s.n, key, child, Some((slot, vh)), i, k),
        has_once(after(ws, before(h, p, k)), s.n as int, key, slot as int, n),
        !container_kind(kind_of(child)),
    ensures
        has_once(after(ws, h), s.n as int, key, slot as int, n),
        val_at(after(ws, h), s.n as int, slot as int) == child,
        held_to_the_end(of_thread(h, p), k, s.n),
        !odd(word(after(ws, h), s.n + 16)),
{
    let t = of_thread(h, p);
    let c = s.n as int;
    let b = encode_utf8(key);
    let j = place(h, p, k);
    let xs = after(ws, h.take(j));
    let ys = after(ws, h);
    let last = h.len() - 1;
    lemma_upheld(ws, h);
    crate::calls::lemma_stood(ws, h, p, t0.len() as int, s);
    law_calls_are_guarded(ws, h, s);
    law_calls_link_in_one_step(ws, h, s, p, t0, key, child, slot, vh, i, k);
    lemma_place(ws, h, p, k);
    lemma_place(ws, h, p, t.len() - 1);
    crate::bounds::lemma_claimed_stands(ws, h, p, k, s);
    lemma_saw(ws, h, p, k);
    lemma_now(ws, h);
    assert(spot_holds(ys, s) && spot_holds(xs, s));
    assert(h.take(last) =~= h.drop_last());
    assert(window_from(t, k, s.n, seq![store(slot_at(s.n, slot) + 8, child)]));
    assert(t.subrange(k + 1, t.len() - 1)[0] == t[k + 1]);
    assert(held_to_the_end(t, k, s.n));
    crate::tables::lemma_slot_from(xs, c, b, 0, s.cap as int);
    let zs = revalued(xs, c, slot as int, child);
    let at = slot_off(c, slot as int) + 8;
    lemma_revalued_words(xs, c, slot as int, child, s.end());
    assert forall|off: int| s.n < off < s.end() && off != s.n + 16 && off % 8 == 0 implies #[trigger] word(
        ys,
        off,
    ) == word(zs, off) by {
        lemma_effect(after(ws, h.take(last)), h[last].event, off);
        assert(word(before_last(ws, h, p), off) == word(zs, off));
    }
    assert(word(ys, at) == word(zs, at));
    assert(word(ys, c + 24) == word(zs, c + 24));
    assert(h.take(h.len() as int) =~= h);
    assert forall|y: int| 0 <= y < s.cap implies #[trigger] has_key_at(ys, c, y, b) == has_key_at(
        xs,
        c,
        y,
        b,
    ) by {
        assert(word(ys, slot_off(c, y)) == word(zs, slot_off(c, y)));
        assert(key_at(zs, c, y) == key_at(xs, c, y));
        lemma_same_key(ws, h, s, j, h.len() as int, y, b);
    }
    lemma_released(ws, h, s, p, k);
}

/// What is there at a claim: nothing yet, or the key once.
#[verifier::rlimit(40)]
proof fn lemma_at_claim(
    ws: Seq<u64>,
    h: Seq<Step>,
    s: Spot,
    key: Seq<char>,
    calls: spec_fn(int) -> Seq<Put>,
    m: int,
    entry: Option<(u32, u64)>,
)
    requires
        all_put(ws, h, s, key, calls),
        0 <= m < h.len(),
        !odd(word(after(ws, h.take(m)), s.n + 16)),
        found_in(after(ws, h.take(m)), s.n, key, entry),
        settled(ws, h, s, key, calls, m),
    ensures
        match entry {
            None => count_of(after(ws, h.take(m)), s.n as int) == count_of(ws, s.n as int),
            Some((slot, _)) => has_once(
                after(ws, h.take(m)),
                s.n as int,
                key,
                slot as int,
                one_up(count_of(ws, s.n as int)),
            ),
        },
{
    let c = s.n as int;
    let now = after(ws, h.take(m));
    lemma_upheld(ws, h);
    law_calls_are_guarded(ws, h, s);
    lemma_even(ws, h, s);
    assert(h.take(0) =~= Seq::empty());
    lemma_upheld_take(ws, h, m);
    lemma_now(ws, h.take(m));
    assert(stands(ws, h.take(m), s));
    assert(spot_holds(now, s));
    crate::tables::lemma_slot_from(now, c, encode_utf8(key), 0, s.cap as int);
    if unclaimed(h, s, 0, m) {
        lemma_key_stays(ws, h, s, key, 0, m);
        lemma_node_stays(ws, h, s, 0, m);
        assert(word(now, c + 24) == word(ws, c + 24));
    }
}

/// What a window in which a handle is linked leaves.
#[verifier::rlimit(60)]
#[verifier::spinoff_prover]
proof fn lemma_after_window(
    ws: Seq<u64>,
    h: Seq<Step>,
    s: Spot,
    p: int,
    t0: Seq<Event>,
    key: Seq<char>,
    g: u64,
    entry: Option<(u32, u64)>,
    i: int,
    y: int,
    n: u64,
) -> (at: int)
    requires
        all_call(ws, h),
        h.len() <= u64::MAX,
        stood_at(ws, h, p, t0, s),
        place(h, p, of_thread(h, p).len() - 1) == h.len() - 1,
        links(t0, of_thread(h, p), s.n, key, g, entry, i, y),
        match entry {
            None => one_up(count_of(after(ws, before(h, p, y)), s.n as int)) == n,
            Some((slot, _)) => has_once(
                after(ws, before(h, p, y)),
                s.n as int,
                key,
                slot as int,
                n,
            ),
        },
        !container_kind(kind_of(g)),
    ensures
        has_once(after(ws, h), s.n as int, key, at, n),
        val_at(after(ws, h), s.n as int, at) == g,
        held_to_the_end(of_thread(h, p), y, s.n),
        !odd(word(after(ws, h), s.n + 16)),
{
    let c = s.n as int;
    match entry {
        None => {
            lemma_upheld(ws, h);
            lemma_now(ws, h);
            crate::calls::lemma_stood(ws, h, p, t0.len() as int, s);
            assert(spot_holds(after(ws, h), s));
            lemma_inserted(ws, h, s, p, t0, key, g, i, y);
            law_calls_insert_in_one_step(ws, h, s, p, t0, key, g, i, y);
            crate::tables::lemma_slot_from(after(ws, h), c, encode_utf8(key), 0, s.cap as int);
            slot_of(after(ws, h), c, key)->0
        },
        Some((slot, vh)) => {
            lemma_relinked(ws, h, s, p, t0, key, g, slot, vh, i, y, n);
            slot as int
        },
    }
}

/// What a call that claims the object or map leaves.
#[verifier::rlimit(60)]
#[verifier::spinoff_prover]
proof fn lemma_after_put(
    ws: Seq<u64>,
    h: Seq<Step>,
    s: Spot,
    key: Seq<char>,
    calls: spec_fn(int) -> Seq<Put>,
    p: int,
    j: int,
    g: u64,
    entry: Option<(u32, u64)>,
    i: int,
    y: int,
) -> (r: (int, int))
    requires
        all_put(ws, h, s, key, calls),
        0 <= j < calls(p).len(),
        0 <= y < of_thread(h, p).len(),
        puts_with(of_thread(h, p), s.n, key, calls(p)[j], g, entry, i, y),
        settled(ws, h, s, key, calls, place(h, p, y)),
    ensures
        ({
            let (f, at) = r;
            &&& place(h, p, y) < f <= h.len()
            &&& forall|w: int|
                place(h, p, y) < w < f ==> odd(word(after(ws, #[trigger] h.take(w)), s.n + 16))
            &&& !odd(word(after(ws, h.take(f)), s.n + 16))
            &&& once_by(ws, h, s, key, calls, f, at, p, j)
        }),
{
    let t = of_thread(h, p);
    let x = calls(p)[j];
    let t0 = t.take(x.b);
    let m = place(h, p, y);
    lemma_upheld(ws, h);
    assert(!x.v.is_container() && 0 <= x.b) by {
        assert(only_puts(h, p, s, key, calls(p)));
        assert(call_puts(t, s.n, key, x));
    }
    lemma_place(ws, h, p, x.e - 1);
    lemma_saw(ws, h, p, y);
    lemma_place_order(ws, h, p, y, x.e - 1);
    let f = place(h, p, x.e - 1) + 1;
    let d = h.take(f);
    assert(d.drop_last() =~= h.take(f - 1));
    lemma_thread_prefix(h, p, f);
    assert(of_thread(d, p) =~= t.take(x.e));
    lemma_same_place(h, p, x.e - 1, f);
    lemma_same_place(h, p, y, f);
    law_calls_stop(ws, h, f);
    assert(stood_at(ws, d, p, t0, s));
    let u = t.take(x.e);
    assert(u[y] == t[y]);
    assert(d.take(m) =~= h.take(m));
    let k = choose|k: int|
        t0.len() <= k && #[trigger] lookup(u.take(i), k, s.n, key, claimed(u, y), entry);
    law_calls_look_up_what_is_there(ws, d, s, p, key, entry, k, i, y);
    assert(!odd(word(after(ws, h.take(m)), s.n + 16))) by {
        lemma_now(ws, h);
        assert(spot_holds(after(ws, h), s));
        assert(answers(after(ws, h.take(m)), t[y]));
    }
    lemma_at_claim(ws, h, s, key, calls, m, entry);
    assert(!container_kind(kind_of(g)));
    let n = one_up(count_of(ws, s.n as int));
    let at = lemma_after_window(ws, d, s, p, t0, key, g, entry, i, y, n);
    lemma_upheld(ws, d);
    law_calls_are_guarded(ws, d, s);
    lemma_alone(ws, d, s, p, y);
    assert forall|w: int| m < w < f implies odd(
        word(after(ws, #[trigger] h.take(w)), s.n + 16),
    ) by {
        assert(d.take(w) =~= h.take(w));
        assert(odd(word(after(ws, d.take(w)), s.n + 16)));
    }
    assert(put_by(h, calls, g, p, j));
    (f, at)
}

/// An object or map that nobody changes goes on having the key once.
proof fn lemma_once_stays(
    ws: Seq<u64>,
    h: Seq<Step>,
    s: Spot,
    key: Seq<char>,
    calls: spec_fn(int) -> Seq<Put>,
    f: int,
    x: int,
    at: int,
    p: int,
    j: int,
)
    requires
        all_put(ws, h, s, key, calls),
        0 <= f <= x <= h.len(),
        !odd(word(after(ws, h.take(f)), s.n + 16)),
        unclaimed(h, s, f, x),
        once_by(ws, h, s, key, calls, f, at, p, j),
    ensures
        once_by(ws, h, s, key, calls, x, at, p, j),
        !odd(word(after(ws, h.take(x)), s.n + 16)),
{
    let c = s.n as int;
    let b = encode_utf8(key);
    let xs = after(ws, h.take(f));
    let ys = after(ws, h.take(x));
    lemma_upheld(ws, h);
    law_calls_are_guarded(ws, h, s);
    lemma_upheld_take(ws, h, f);
    lemma_upheld_take(ws, h, x);
    lemma_now(ws, h.take(f));
    lemma_now(ws, h.take(x));
    assert(stands(ws, h.take(f), s) && stands(ws, h.take(x), s));
    assert(spot_holds(xs, s) && spot_holds(ys, s));
    lemma_node_stays(ws, h, s, f, x);
    assert(word(ys, c + 16) == word(xs, c + 16));
    assert(word(ys, c + 24) == word(xs, c + 24));
    assert(word(ys, slot_off(c, at) + 8) == word(xs, slot_off(c, at) + 8));
    assert forall|y: int| 0 <= y < s.cap implies #[trigger] has_key_at(ys, c, y, b) == has_key_at(
        xs,
        c,
        y,
        b,
    ) by {
        assert(word(ys, slot_off(c, y)) == word(xs, slot_off(c, y)));
        lemma_same_key(ws, h, s, f, x, y, b);
    }
}

/// The last claim of the node before moment `j`.
proof fn lemma_last_claim(h: Seq<Step>, s: Spot, j: int) -> (m: int)
    requires
        0 <= j <= h.len(),
        !unclaimed(h, s, 0, j),
    ensures
        0 <= m < j,
        marks(h[m].event, seq_off(s.n)),
        unclaimed(h, s, m + 1, j),
    decreases j,
{
    let x = j - 1;
    if x >= 0 && marks(h[x].event, seq_off(s.n)) {
        x
    } else {
        lemma_last_claim(h, s, x)
    }
}

/// After the last claim before moment `x` the object or map has the key once.
#[verifier::rlimit(40)]
proof fn lemma_since_claim(
    ws: Seq<u64>,
    h: Seq<Step>,
    s: Spot,
    key: Seq<char>,
    calls: spec_fn(int) -> Seq<Put>,
    x: int,
) -> (r: (int, int, int, int))
    requires
        all_put(ws, h, s, key, calls),
        0 <= x <= h.len(),
        !unclaimed(h, s, 0, x),
        forall|w: int| 0 <= w < x ==> #[trigger] settled(ws, h, s, key, calls, w),
    ensures
        ({
            let (f, at, p, j) = r;
            &&& 0 < f <= h.len()
            &&& x < f ==> odd(word(after(ws, h.take(x)), s.n + 16))
            &&& f <= x ==> once_by(ws, h, s, key, calls, x, at, p, j) && !odd(
                word(after(ws, h.take(x)), s.n + 16),
            )
        }),
{
    let m = lemma_last_claim(h, s, x);
    let p = h[m].thread;
    let y = of_thread(h.take(m), p).len() as int;
    lemma_turn_place(ws, h, m);
    let (j, g, entry, i) = lemma_put_claims(ws, h, s, key, calls, p, y);
    assert(settled(ws, h, s, key, calls, m));
    let (f, at) = lemma_after_put(ws, h, s, key, calls, p, j, g, entry, i, y);
    if f <= x {
        lemma_once_stays(ws, h, s, key, calls, f, x, at, p, j);
    }
    (f, at, p, j)
}

/// What holds at every moment.
proof fn lemma_settled(
    ws: Seq<u64>,
    h: Seq<Step>,
    s: Spot,
    key: Seq<char>,
    calls: spec_fn(int) -> Seq<Put>,
    x: int,
)
    requires
        all_put(ws, h, s, key, calls),
        0 <= x <= h.len(),
    ensures
        settled(ws, h, s, key, calls, x),
    decreases x,
{
    assert forall|w: int| 0 <= w < x implies #[trigger] settled(ws, h, s, key, calls, w) by {
        lemma_settled(ws, h, s, key, calls, w);
    }
    if !unclaimed(h, s, 0, x) {
        let (f, at, p, j) = lemma_since_claim(ws, h, s, key, calls, x);
    }
}

/// A call that sets the key of an object or map that does not have it claims the object or map.
#[verifier::rlimit(40)]
proof fn lemma_put_needs_claim(
    ws: Seq<u64>,
    h: Seq<Step>,
    s: Spot,
    key: Seq<char>,
    calls: spec_fn(int) -> Seq<Put>,
    q: int,
)
    requires
        all_put(ws, h, s, key, calls),
        calls(q).len() > 0,
    ensures
        !unclaimed(h, s, 0, h.len() as int),
{
    let t = of_thread(h, q);
    let x = calls(q)[0];
    lemma_upheld(ws, h);
    law_calls_are_guarded(ws, h, s);
    lemma_even(ws, h, s);
    assert(h.take(0) =~= Seq::empty());
    assert(only_puts(h, q, s, key, calls(q)));
    assert(call_puts(t, s.n, key, x));
    let t0 = t.take(x.b);
    let t1 = t.take(x.e);
    if overwrites_found(t0, t1, s.n, key, x.v) {
        let (i, seq, slot, g) = choose|i: int, seq: u64, slot: u32, g: u64| #[trigger]
            overwrites(t0, t1, s.n, key, x.v, i, seq, slot, g);
        assert(t1.take(i) =~= t.take(i));
        let k = choose|k: int|
            t0.len() <= k && #[trigger] lookup(t.take(i), k, s.n, key, seq, Some((slot, g)));
        lemma_place(ws, h, q, i - 1);
        law_calls_look_up_at_one_moment(ws, h, s, q, key, seq, Some((slot, g)), k, i);
        let w = place(h, q, i - 1);
        if unclaimed(h, s, 0, h.len() as int) {
            assert(unclaimed(h, s, 0, w));
            lemma_key_stays(ws, h, s, key, 0, w);
        }
    } else {
        let g = choose|g: u64| #[trigger]
            key_linked(t0, t1, s.n, key, g) && node_made(t0, t1, g, x.v);
        let (entry, i, k) = choose|entry: Option<(u32, u64)>, i: int, k: int| #[trigger]
            links(t0, t1, s.n, key, g, entry, i, k);
        assert(t1[k] == t[k]);
        lemma_place(ws, h, q, k);
        assert(marks(h[place(h, q, k)].event, seq_off(s.n)));
    }
}

/// The object or map at `c` has `key` once in the end, in slot `at`, with a scalar that call `j` of
/// thread `p` has made for what it set the key to, and one key more than at the beginning.
pub open spec fn set_once(
    ws: Seq<u64>,
    h: Seq<Step>,
    c: int,
    key: Seq<char>,
    calls: spec_fn(int) -> Seq<Put>,
    at: int,
    p: int,
    j: int,
) -> bool {
    &&& has_once(after(ws, h), c, key, at, (count_of(ws, c) + 1) as u64)
    &&& put_by(h, calls, val_at(after(ws, h), c, at), p, j)
}

/// Threads that set one absent key of an object or map at the same time, with `put_key_scalar`, and
/// do nothing else to the container: whatever the order in which their accesses follow each other,
/// the container has the key once in the end, its length has grown by one, and what it has under
/// the key is a node that one of the calls has made for its value.
#[verifier::rlimit(40)]
pub proof fn law_calls_put_one_key(
    ws: Seq<u64>,
    h: Seq<Step>,
    c: u64,
    key: Seq<char>,
    calls: spec_fn(int) -> Seq<Put>,
    q: int,
)
    requires
        all_call(ws, h),
        h.len() <= u64::MAX,
        is_table(ws, c as int),
        slot_of(ws, c as int, key) is None,
        forall|p: int| only_puts(h, p, table_spot(ws, c), key, #[trigger] calls(p)),
        calls(q).len() > 0,
    ensures
        exists|at: int, p: int, j: int| #[trigger]
            set_once(ws, h, c as int, key, calls, at, p, j),
        count_of(ws, c as int) < u64::MAX,
{
    let s = table_spot(ws, c);
    assert(stands(ws, h, s));
    assert(all_put(ws, h, s, key, calls));
    let n = h.len() as int;
    lemma_put_needs_claim(ws, h, s, key, calls, q);
    assert forall|w: int| 0 <= w < n implies #[trigger] settled(ws, h, s, key, calls, w) by {
        lemma_settled(ws, h, s, key, calls, w);
    }
    let (f, at, p, j) = lemma_since_claim(ws, h, s, key, calls, n);
    assert(h.take(n) =~= h);
    crate::layout::lemma_node(ws, c as int);
    crate::layout::lemma_occupied_bound(ws, c as int, cap_of(ws, c as int));
    assert(set_once(ws, h, c as int, key, calls, at, p, j));
}

} // verus!
