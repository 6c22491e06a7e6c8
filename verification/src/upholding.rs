//! What calls rest on, they uphold.
use crate::arena::{OFF_BUMP, OFF_CAPACITY, OFF_FREE, OFF_LOCK, SIZE_HEADER};
use crate::bounds::lemma_in_bounds;
use crate::discipline::{in_block, in_run, run_on, writes, Op};
use crate::history::{after, answers, changes, claim_of, coherent, lemma_effect, of_thread, Step};
use crate::layout::{
    bump_of, cap_of, is_table, key_at, lemma_node, slot_off, slot_ok, table_kind, val_at, wf,
};
use crate::memory::{in_words, word, Event};
use crate::standing::{
    goes_to, is_key, is_value, key_fits, lemma_key_fits_later, lemma_made_spot, lemma_same_birth,
    lemma_spot_earlier, lemma_spot_later, lemma_takes_apart, made_spot, stands, value_fits, Spot,
};
use crate::trace::seq_off;
use crate::upkeep::{
    all_call, called, changes_node, header_holds, in_bounds, in_call, in_force, lemma_all_call_take,
    lemma_all_in_order, lemma_block_apart, lemma_complete, lemma_node_word, lemma_now,
    lemma_one_spot, lemma_taken_behind, node_word, rest_zero, run_holds, sealed, slots_hold,
    spot_holds, taken, unfinished, upheld,
};
use crate::value::{kind_of, off_of, H_INVALID};
use vstd::prelude::*;

verus! {

/// The last access of `h` may follow what holds before it.
pub open spec fn goes_on(ws: Seq<u64>, h: Seq<Step>) -> bool {
    &&& h.len() > 0
    &&& wf(ws)
    &&& coherent(ws, h)
    &&& upheld(ws, h.drop_last())
    &&& in_bounds(ws, h)
}

/// A word that the last access changes behind the header lies in a node that it changes, or in a
/// block in which the thread makes one.
proof fn lemma_changed(ws: Seq<u64>, h: Seq<Step>, a: int)
    requires
        goes_on(ws, h),
        changes(h.last().event, a),
        a >= SIZE_HEADER,
    ensures
        h.last().event is Store && in_run(
            Seq::empty(),
            of_thread(h.drop_last(), h.last().thread),
            a as u64,
        ) || exists|s: Spot| #[trigger] changes_node(ws, h, s) && s.has(a) && s.n < a,
{
    let y = h.drop_last();
    lemma_now(ws, y);
    if exists|s: Spot| #[trigger] changes_node(ws, h, s) {
        let s = choose|s: Spot| #[trigger] changes_node(ws, h, s);
        assert(spot_holds(after(ws, y), s));
        if let Event::Store { off, val } = h.last().event {
            if off != s.n + 16 {
                lemma_node_word(ws, h, s, off as int, val);
            }
        }
        assert(s.has(a));
    }
}

/// If the last access changes a word of a node that stood, it changes that node.
pub proof fn lemma_changes_spot(ws: Seq<u64>, h: Seq<Step>, s: Spot, a: int)
    requires
        goes_on(ws, h),
        stands(ws, h.drop_last(), s),
        changes(h.last().event, a),
        s.has(a),
    ensures
        changes_node(ws, h, s),
        s.n < a,
{
    let y = h.drop_last();
    lemma_now(ws, y);
    assert(spot_holds(after(ws, y), s));
    lemma_changed(ws, h, a);
    if exists|r: Spot| #[trigger] changes_node(ws, h, r) && r.has(a) && r.n < a {
        let r = choose|r: Spot| #[trigger] changes_node(ws, h, r) && r.has(a) && r.n < a;
        lemma_one_spot(ws, y, s, r, a);
    } else {
        lemma_complete(ws, y, h.last().thread, a as u64, s);
    }
}

/// The header, and what lies behind what is in use.
#[verifier::rlimit(40)]
proof fn lemma_keeps_header(ws: Seq<u64>, h: Seq<Step>)
    requires
        goes_on(ws, h),
    ensures
        header_holds(ws, after(ws, h)),
        rest_zero(after(ws, h)),
        word(after(ws, h.drop_last()), OFF_BUMP as int) <= word(after(ws, h), OFF_BUMP as int),
{
    let y = h.drop_last();
    let xs = after(ws, y);
    let ys = after(ws, h);
    let e = h.last().event;
    let t = of_thread(y, h.last().thread);
    lemma_now(ws, y);
    lemma_effect(xs, e, OFF_FREE as int);
    lemma_effect(xs, e, OFF_BUMP as int);
    lemma_effect(xs, e, OFF_CAPACITY as int);
    if exists|s: Spot| #[trigger] changes_node(ws, h, s) {
        let s = choose|s: Spot| #[trigger] changes_node(ws, h, s);
        assert(spot_holds(xs, s));
        if let Event::Store { off, val } = e {
            if off != s.n + 16 {
                lemma_node_word(ws, h, s, off as int, val);
            }
        }
        assert(forall|a: int| #[trigger] changes(e, a) ==> SIZE_HEADER <= a < word(xs, OFF_BUMP as int));
    } else if let Event::Store { off, .. } = e {
        if in_run(Seq::empty(), t, off) {
            let (i, b, n) = choose|i: int, b: u64, n: u64|
                Seq::<Event>::empty().len() <= i && #[trigger] run_on(t, i, b, n, off);
            lemma_taken_behind(ws, y, h.last().thread, i, b, n);
        }
        assert(forall|a: int| #[trigger]
            changes(e, a) ==> a == OFF_LOCK || SIZE_HEADER <= a < word(xs, OFF_BUMP as int));
    }
    assert forall|a: int| word(ys, OFF_BUMP as int) <= a implies #[trigger] word(ys, a) == 0 by {
        lemma_effect(xs, e, a);
        assert(word(xs, a) == 0);
    }
}

/// A node that stood holds.
#[verifier::rlimit(50)]
proof fn lemma_keeps_spot(ws: Seq<u64>, h: Seq<Step>, s: Spot)
    requires
        goes_on(ws, h),
        stands(ws, h.drop_last(), s),
    ensures
        spot_holds(after(ws, h), s),
        slots_hold(ws, h, s),
        sealed(of_thread(h, s.p), s),
{
    let y = h.drop_last();
    let xs = after(ws, y);
    let ys = after(ws, h);
    let e = h.last().event;
    let n = s.n as int;
    assert(y =~= h.take(h.len() - 1));
    lemma_now(ws, y);
    lemma_keeps_header(ws, h);
    assert(spot_holds(xs, s) && slots_hold(ws, y, s));
    lemma_effect(xs, e, n);
    lemma_effect(xs, e, n + 8);
    if changes(e, n) {
        lemma_changes_spot(ws, h, s, n);
    }
    if changes(e, n + 8) {
        lemma_changes_spot(ws, h, s, n + 8);
    }
    if table_kind(s.kind) {
        assert forall|i: int| 0 <= i < s.cap implies key_fits(ws, h, #[trigger] key_at(ys, n, i))
            && value_fits(ws, h, val_at(ys, n, i)) by {
            let a = slot_off(n, i);
            lemma_effect(xs, e, a);
            lemma_effect(xs, e, a + 8);
            assert(key_fits(ws, y, key_at(xs, n, i)));
            lemma_key_fits_later(ws, h, h.len() - 1, key_at(xs, n, i));
            lemma_key_fits_later(ws, h, h.len() - 1, val_at(xs, n, i));
            if changes(e, a) {
                lemma_changes_spot(ws, h, s, a);
                assert(node_word(ws, h, s, a, e->Store_val));
            }
            if changes(e, a + 8) {
                lemma_changes_spot(ws, h, s, a + 8);
                assert(node_word(ws, h, s, a + 8, e->Store_val));
            }
        }
    }
    lemma_keeps_sealed(ws, h, s);
}

/// Whoever has just made a node has not claimed it.
pub proof fn lemma_unclaimed(t: Seq<Event>, s: Spot)
    requires
        made_spot(t, s),
        t.len() == s.d,
        s.n >= SIZE_HEADER,
    ensures
        claim_of(t, seq_off(s.n)) is None,
{
    lemma_made_spot(t, s);
    lemma_unclaimed_from(t, seq_off(s.n), s.born() + 4);
}

proof fn lemma_unclaimed_from(t: Seq<Event>, o: u64, k: int)
    requires
        0 <= k < t.len(),
        writes(t[k], o),
        forall|j: int| k < j < t.len() ==> #[trigger] t[j] is Store,
    ensures
        claim_of(t, o) is None,
    decreases t.len(),
{
    if k < t.len() - 1 {
        let u = t.drop_last();
        assert(t[t.len() - 1] is Store);
        assert forall|j: int| k < j < u.len() implies #[trigger] u[j] is Store by {
            assert(t[j] is Store);
        }
        lemma_unclaimed_from(u, o, k);
    }
}

proof fn lemma_keeps_sealed(ws: Seq<u64>, h: Seq<Step>, s: Spot)
    requires
        goes_on(ws, h),
        stands(ws, h.drop_last(), s),
    ensures
        sealed(of_thread(h, s.p), s),
{
    let y = h.drop_last();
    let e = h.last().event;
    let t = of_thread(y, s.p);
    lemma_now(ws, y);
    assert(spot_holds(after(ws, y), s));
    assert(sealed(t, s));
    if s.d > 0 && h.last().thread == s.p {
        lemma_made_spot(t, s);
        if t.len() == s.d && in_block(e, s.n, s.room() as u64) {
            let off = e->Store_off;
            lemma_changes_spot(ws, h, s, off as int);
            lemma_unclaimed(t, s);
        }
    }
}

/// The last access has completed the node `s`: its maker was at work on the block.
#[verifier::rlimit(40)]
proof fn lemma_completes(ws: Seq<u64>, h: Seq<Step>, s: Spot)
    requires
        goes_on(ws, h),
        stands(ws, h, s),
        !stands(ws, h.drop_last(), s),
    ensures
        s.d > 0,
        h.last().thread == s.p,
        of_thread(h, s.p).len() == s.d,
        of_thread(h, s.p) == of_thread(h.drop_last(), s.p).push(h.last().event),
        run_holds(
            after(ws, h.drop_last()),
            of_thread(h.drop_last(), s.p),
            s.born(),
            s.n,
            s.room() as u64,
        ),
        bump_of(ws) <= s.n,
        s.n % 8 == 0,
{
    let y = h.drop_last();
    let e = h.last().event;
    let p = s.p;
    let t = of_thread(y, p);
    let u = of_thread(h, p);
    let i = s.born();
    lemma_now(ws, y);
    lemma_made_spot(u, s);
    assert(h.last().thread == p);
    assert(u == t.push(e));
    assert(u.take(t.len() as int) =~= t);
    if s.d <= t.len() {
        lemma_spot_earlier(t, u, s);
    }
    assert forall|j: int| 0 <= j < t.len() implies #[trigger] t[j] == u[j] by {}
    let room = s.room() as u64;
    assert forall|j: int| i + 2 <= j < t.len() implies in_block(#[trigger] t[j], s.n, room) by {
        assert(u[j] == t[j]);
    }
    assert(u[i] == t[i] && u[i + 1] == t[i + 1]);
    assert(taken(t, i, s.n, room));
    assert forall|r: Spot| #[trigger] made_spot(t, r) && r.p == p implies r.born() != i by {
        if r.born() == i {
            lemma_spot_later(t, u, r);
            lemma_same_birth(u, s, r);
            lemma_made_spot(t, r);
        }
    }
    lemma_taken_behind(ws, y, p, i, s.n, room);
}

/// What its maker wrote to a node is there when it is complete.
#[verifier::rlimit(60)]
#[verifier::spinoff_prover]
proof fn lemma_made_words(ws: Seq<u64>, h: Seq<Step>, s: Spot, j: int)
    requires
        goes_on(ws, h),
        stands(ws, h, s),
        !stands(ws, h.drop_last(), s),
        s.born() + 2 <= j < s.d,
    ensures
        word(after(ws, h), goes_to(s, j - s.born() - 2)) == of_thread(h, s.p)[j]->Store_val,
{
    let y = h.drop_last();
    let xs = after(ws, y);
    let e = h.last().event;
    let t = of_thread(y, s.p);
    let u = of_thread(h, s.p);
    let a = goes_to(s, j - s.born() - 2);
    lemma_completes(ws, h, s);
    lemma_now(ws, y);
    lemma_made_spot(u, s);
    lemma_effect(xs, e, a);
    assert(u[j] matches Event::Store { off: o, .. } && o == a);
    let last = s.d - 1;
    assert(u[last] == e);
    assert(u[last] matches Event::Store { off: o, .. } && o == goes_to(s, last - s.born() - 2));
    if j < last {
        assert(t[j] == u[j]);
        assert(a != goes_to(s, last - s.born() - 2));
    } else {
        assert(in_words(ws, a));
    }
}

/// A node that the last access has completed holds.
#[verifier::rlimit(50)]
#[verifier::spinoff_prover]
proof fn lemma_new_spot(ws: Seq<u64>, h: Seq<Step>, s: Spot)
    requires
        goes_on(ws, h),
        stands(ws, h, s),
        !stands(ws, h.drop_last(), s),
    ensures
        spot_holds(after(ws, h), s),
        slots_hold(ws, h, s),
        sealed(of_thread(h, s.p), s),
{
    let y = h.drop_last();
    let xs = after(ws, y);
    let ys = after(ws, h);
    let e = h.last().event;
    let t = of_thread(y, s.p);
    let u = of_thread(h, s.p);
    let n = s.n as int;
    let i = s.born();
    lemma_now(ws, y);
    lemma_keeps_header(ws, h);
    lemma_made_spot(u, s);
    lemma_completes(ws, h, s);
    lemma_made_words(ws, h, s, i + 2);
    lemma_made_words(ws, h, s, i + 3);
    if table_kind(s.kind) {
        assert forall|k: int| 0 <= k < s.cap implies key_fits(ws, h, #[trigger] key_at(ys, n, k))
            && value_fits(ws, h, val_at(ys, n, k)) by {
            let a = slot_off(n, k);
            lemma_effect(xs, e, a);
            lemma_effect(xs, e, a + 8);
            assert(u[s.d - 1] == e);
            assert forall|j: int| i + 2 <= j < t.len() implies !changes(#[trigger] t[j], a)
                && !changes(t[j], a + 8) by {
                assert(u[j] == t[j]);
            }
            assert(word(xs, a) == 0);
            assert(word(xs, a + 8) == 0);
        }
    }
}

/// Only its maker writes to a block in which a node is being made.
pub proof fn lemma_only_maker(ws: Seq<u64>, h: Seq<Step>, q: int, i: int, b: u64, n: u64, a: int)
    requires
        goes_on(ws, h),
        taken(of_thread(h.drop_last(), q), i, b, n),
        unfinished(of_thread(h.drop_last(), q), q, i),
        b <= a < b + n,
        changes(h.last().event, a),
    ensures
        h.last().thread == q,
        h.last().event is Store,
        run_on(of_thread(h.drop_last(), q), i, b, n, a as u64),
        in_words(ws, a),
{
    let y = h.drop_last();
    let p = h.last().thread;
    let t = of_thread(y, q);
    lemma_now(ws, y);
    lemma_all_in_order(ws, y);
    lemma_taken_behind(ws, y, q, i, b, n);
    lemma_changed(ws, h, a);
    if exists|s: Spot| #[trigger] changes_node(ws, h, s) && s.has(a) && s.n < a {
        let s = choose|s: Spot| #[trigger] changes_node(ws, h, s) && s.has(a) && s.n < a;
        lemma_block_apart(ws, y, q, i, b, n, s);
        assert(made_spot(t, s));
    } else {
        let v = of_thread(y, p);
        let (k, c, m) = choose|k: int, c: u64, m: u64|
            Seq::<Event>::empty().len() <= k && #[trigger] run_on(v, k, c, m, a as u64);
        lemma_takes_apart(ws, y, q, i, b, n, p, k, c, m);
    }
}

/// A block in which a node is being made by a thread that does not act holds what it held.
proof fn lemma_keeps_other_run(ws: Seq<u64>, h: Seq<Step>, q: int, i: int, b: u64, n: u64)
    requires
        goes_on(ws, h),
        h.last().thread != q,
        taken(of_thread(h, q), i, b, n),
        unfinished(of_thread(h, q), q, i),
    ensures
        run_holds(after(ws, h), of_thread(h, q), i, b, n),
{
    let y = h.drop_last();
    let xs = after(ws, y);
    let ys = after(ws, h);
    let e = h.last().event;
    let t = of_thread(y, q);
    lemma_now(ws, y);
    lemma_keeps_header(ws, h);
    assert(run_holds(xs, t, i, b, n));
    assert forall|a: int| b <= a < b + n implies #[trigger] word(ys, a) == word(xs, a) by {
        lemma_effect(xs, e, a);
        if changes(e, a) {
            lemma_only_maker(ws, h, q, i, b, n, a);
        }
    }
    assert forall|j: int| i + 2 <= j < t.len() implies (
    #[trigger] t[j] matches Event::Store { off, val } ==> word(ys, off as int) == val) by {
        assert(in_block(t[j], b, n));
    }
}

/// A block that its maker has just taken holds nothing.
proof fn lemma_new_run(ws: Seq<u64>, h: Seq<Step>, i: int, b: u64, n: u64)
    requires
        goes_on(ws, h),
        i == of_thread(h.drop_last(), h.last().thread).len(),
        taken(of_thread(h, h.last().thread), i, b, n),
    ensures
        run_holds(after(ws, h), of_thread(h, h.last().thread), i, b, n),
{
    let y = h.drop_last();
    let xs = after(ws, y);
    let e = h.last().event;
    lemma_now(ws, y);
    lemma_keeps_header(ws, h);
    assert(of_thread(h, h.last().thread)[i] == e);
    assert(answers(xs, e));
    lemma_effect(xs, e, OFF_BUMP as int);
    assert forall|a: int| b <= a < b + n implies #[trigger] word(after(ws, h), a) == 0 by {
        lemma_effect(xs, e, a);
        assert(word(xs, a) == 0);
    }
}

/// A block in which a thread goes on making a node holds what it wrote.
#[verifier::rlimit(50)]
#[verifier::spinoff_prover]
proof fn lemma_keeps_own_run(ws: Seq<u64>, h: Seq<Step>, i: int, b: u64, n: u64)
    requires
        goes_on(ws, h),
        i < of_thread(h.drop_last(), h.last().thread).len(),
        taken(of_thread(h, h.last().thread), i, b, n),
        unfinished(of_thread(h, h.last().thread), h.last().thread, i),
    ensures
        run_holds(after(ws, h), of_thread(h, h.last().thread), i, b, n),
{
    let y = h.drop_last();
    let q = h.last().thread;
    let xs = after(ws, y);
    let ys = after(ws, h);
    let e = h.last().event;
    let t = of_thread(y, q);
    let u = of_thread(h, q);
    let z = t.len() as int;
    lemma_now(ws, y);
    lemma_keeps_header(ws, h);
    assert(u == t.push(e));
    assert(u.take(z) =~= t);
    assert forall|j: int| 0 <= j < z implies #[trigger] t[j] == u[j] by {}
    assert forall|j: int| i + 2 <= j < z implies in_block(#[trigger] t[j], b, n) by {
        assert(u[j] == t[j]);
    }
    assert forall|s: Spot| #[trigger] made_spot(t, s) && s.p == q implies s.born() != i by {
        lemma_spot_later(t, u, s);
    }
    assert(u[i] == t[i]);
    assert(taken(t, i, b, n) && unfinished(t, q, i));
    assert(run_holds(xs, t, i, b, n));
    assert(u[z] == e);
    if z == i + 1 {
        assert(writes(e, OFF_LOCK));
        lemma_taken_behind(ws, y, q, i, b, n);
        assert forall|a: int| b <= a < b + n implies #[trigger] word(ys, a) == word(xs, a) by {
            lemma_effect(xs, e, a);
        }
    } else {
        assert(in_block(u[z], b, n));
        let off = e->Store_off;
        assert(changes(e, off as int));
        lemma_only_maker(ws, h, q, i, b, n, off as int);
        assert forall|j: int| i + 2 <= j < u.len() implies (
        #[trigger] u[j] matches Event::Store { off, val } ==> word(ys, off as int) == val)
            && u[j]->Store_off <= u.last()->Store_off by {
            assert(in_block(u[j], b, n));
            lemma_effect(xs, e, u[j]->Store_off as int);
            if j < z {
                assert(u[j] == t[j]);
                assert(t[j]->Store_off <= t.last()->Store_off);
            }
        }
        assert forall|a: int| b <= a < b + n && (forall|j: int|
            i + 2 <= j < u.len() ==> !changes(#[trigger] u[j], a)) implies #[trigger] word(ys, a)
            == 0 by {
            lemma_effect(xs, e, a);
            assert forall|j: int| i + 2 <= j < z implies !changes(#[trigger] t[j], a) by {
                assert(u[j] == t[j]);
            }
            assert(word(xs, a) == 0);
            assert(!changes(u[z], a));
        }
    }
}

/// An access in bounds keeps what calls rest on.
proof fn lemma_keeps(ws: Seq<u64>, h: Seq<Step>)
    requires
        goes_on(ws, h),
    ensures
        in_force(ws, h),
{
    lemma_keeps_header(ws, h);
    assert forall|s: Spot| #[trigger] stands(ws, h, s) implies spot_holds(after(ws, h), s)
        && slots_hold(ws, h, s) && sealed(of_thread(h, s.p), s) by {
        if stands(ws, h.drop_last(), s) {
            lemma_keeps_spot(ws, h, s);
        } else {
            lemma_new_spot(ws, h, s);
        }
    }
    assert forall|p: int, i: int, b: u64, n: u64| #[trigger]
        taken(of_thread(h, p), i, b, n) && unfinished(of_thread(h, p), p, i) implies run_holds(
        after(ws, h),
        of_thread(h, p),
        i,
        b,
        n,
    ) by {
        if p != h.last().thread {
            lemma_keeps_other_run(ws, h, p, i, b, n);
        } else if i == of_thread(h.drop_last(), p).len() {
            lemma_new_run(ws, h, i, b, n);
        } else {
            lemma_keeps_own_run(ws, h, i, b, n);
        }
    }
}

/// What holds at the beginning.
#[verifier::rlimit(40)]
proof fn lemma_begins(ws: Seq<u64>)
    requires
        wf(ws),
    ensures
        in_force(ws, Seq::empty()),
{
    reveal(wf);
    let h = Seq::<Step>::empty();
    assert forall|s: Spot| #[trigger] stands(ws, h, s) implies spot_holds(ws, s) && slots_hold(
        ws,
        h,
        s,
    ) by {
        if s.d > 0 {
            lemma_made_spot(of_thread(h, s.p), s);
        }
        let n = s.n as int;
        lemma_node(ws, n);
        if table_kind(s.kind) {
            assert forall|i: int| 0 <= i < s.cap implies key_fits(ws, h, #[trigger] key_at(ws, n, i))
                && value_fits(ws, h, val_at(ws, n, i)) by {
                lemma_slot_begins(ws, n, i);
            }
        }
    }
}

/// What is in a slot at the beginning may be there.
#[verifier::rlimit(40)]
proof fn lemma_slot_begins(ws: Seq<u64>, c: int, i: int)
    requires
        wf(ws),
        is_table(ws, c),
        0 <= i < cap_of(ws, c),
    ensures
        key_fits(ws, Seq::empty(), key_at(ws, c, i)),
        value_fits(ws, Seq::empty(), val_at(ws, c, i)),
{
    reveal(wf);
    let h = Seq::<Step>::empty();
    lemma_node(ws, c);
    assert(slot_ok(ws, c, i));
    let k = key_at(ws, c, i);
    let v = val_at(ws, c, i);
    if k != H_INVALID {
        let s = Spot {
            n: off_of(k),
            kind: kind_of(k),
            cap: cap_of(ws, off_of(k) as int) as u32,
            p: 0,
            d: 0,
        };
        assert(stands(ws, h, s) && is_key(ws, h, s));
    }
    if v != H_INVALID {
        let s = Spot {
            n: off_of(v),
            kind: kind_of(v),
            cap: cap_of(ws, off_of(v) as int) as u32,
            p: 0,
            d: 0,
        };
        assert forall|d: int, j: int|
            is_table(ws, d) && 0 <= j < cap_of(ws, d) && #[trigger] key_at(ws, d, j)
                != H_INVALID implies off_of(key_at(ws, d, j)) != off_of(v) by {}
        assert(stands(ws, h, s) && is_value(ws, h, s));
    }
}

/// What calls rest on holds at all moments of a history of calls.
#[verifier::rlimit(40)]
pub proof fn lemma_upheld(ws: Seq<u64>, h: Seq<Step>)
    requires
        all_call(ws, h),
    ensures
        upheld(ws, h),
    decreases h.len(),
{
    if h.len() == 0 {
        lemma_begins(ws);
        assert forall|j: int| 0 <= j <= h.len() implies in_force(ws, #[trigger] h.take(j)) by {
            assert(h.take(j) =~= Seq::empty());
        }
    } else {
        let y = h.drop_last();
        let p = h.last().thread;
        let i = of_thread(y, p).len() as int;
        assert(y =~= h.take(h.len() - 1));
        lemma_all_call_take(ws, h, h.len() - 1);
        lemma_upheld(ws, y);
        assert(called(ws, h, p, i));
        let (op, b) = choose|op: Op, b: int| #[trigger] in_call(ws, h, p, i, op, b);
        lemma_in_bounds(ws, h, op, b);
        lemma_keeps(ws, h);
        assert forall|j: int| 0 <= j <= h.len() implies in_force(ws, #[trigger] h.take(j)) by {
            if j < h.len() {
                assert(h.take(j) =~= y.take(j));
                assert(in_force(ws, y.take(j)));
            } else {
                assert(h.take(j) =~= h);
            }
        }
        assert forall|j: int| 0 < j <= h.len() implies in_bounds(ws, #[trigger] h.take(j)) by {
            if j < h.len() {
                assert(h.take(j) =~= y.take(j));
                assert(in_bounds(ws, y.take(j)));
            } else {
                assert(h.take(j) =~= h);
            }
        }
    }
}

} // verus!
