//! What a mutation of an object or map does in all.
//!
//! A mutation looks a key up, and then claims what it has found, or the container; if somebody else
//! was faster, it starts over. Before the attempt that settles it, it leaves the container alone:
//! it makes nodes, and at most writes its value onto nodes that it has found under the key.
use crate::discipline::{building, builds, lemma_builds_join, lemma_idle_builds};
use crate::format::SIZE_HEADER;
use crate::graph::looked_up;
use crate::memory::Event;
use crate::record::{ends_in_window, node_rewritten, rewrite_accesses, store, window_from};
use crate::trace::{
    at_most_one_window, bumped, changes_nothing, claimed, end_seen, extends, idle, inside_window,
    marks, seq_off, stays_inside, window,
};
use crate::value::{off_of, Value};
use vstd::prelude::*;

verus! {

/// With the accesses from `x` to `y` the thread wrote `v` onto the node behind `g`, the version of
/// which is at `off`, and which it had found under `key` in the object or map at `c` with its
/// accesses up to `i`.
pub open spec fn rewrites_found(
    t: Seq<Event>,
    x: int,
    off: u64,
    c: u64,
    key: Seq<char>,
    v: Value,
    g: u64,
    i: int,
    y: int,
) -> bool {
    &&& 0 <= i <= x < y <= t.len()
    &&& exists|seq: u64, slot: u32| #[trigger]
        looked_up(Seq::empty(), t.take(i), c, key, seq, Some((slot, g)))
    &&& off == seq_off(off_of(g))
    &&& exists|sizes: u64|
        window_from(t.take(y), x, off_of(g), #[trigger] rewrite_accesses(off_of(g), v, sizes))
}

/// The claim of the version at `off`, with access `x`, is one to write `v` onto a node that the
/// thread had found under `key` in the object or map at `c`.
pub open spec fn claims_found(
    t: Seq<Event>,
    x: int,
    off: u64,
    c: u64,
    key: Seq<char>,
    v: Value,
) -> bool {
    exists|g: u64, i: int, y: int| #[trigger] rewrites_found(t, x, off, c, key, v, g, i, y)
}

/// From `t0` to `t1` the thread claimed no version, but perhaps to write `v` onto nodes that it had
/// found under `key` in the object or map at `c`.
#[verifier::opaque]
pub open spec fn quiet(
    t0: Seq<Event>,
    t1: Seq<Event>,
    c: u64,
    key: Seq<char>,
    v: Option<Value>,
) -> bool {
    forall|x: int, off: u64|
        t0.len() <= x < t1.len() && #[trigger] marks(t1[x], off) && off >= SIZE_HEADER ==> v is Some
            && claims_found(t1, x, off, c, key, v->0)
}

/// From access `k` on the thread claimed no version.
#[verifier::opaque]
pub open spec fn unclaiming(t: Seq<Event>, k: int) -> bool {
    forall|x: int, off: u64|
        k <= x < t.len() && #[trigger] marks(t[x], off) ==> off < SIZE_HEADER
}

/// From `t0` on the thread was quiet, until it claimed the object or map at `c`, with access `k`,
/// and then no version any more; or it was quiet all the time, and `k` is the end.
pub open spec fn last_claim(
    t0: Seq<Event>,
    t1: Seq<Event>,
    c: u64,
    key: Seq<char>,
    v: Option<Value>,
    k: int,
) -> bool {
    &&& t0.len() <= k <= t1.len()
    &&& quiet(t0, t1.take(k), c, key, v)
    &&& k < t1.len() ==> marks(t1[k], seq_off(c)) && unclaiming(t1, k + 1)
}

/// From `t0` to `t1` the thread claimed the object or map at `c` at most once, and besides it no
/// version, but perhaps to write `v` onto nodes that it had found there under `key` before.
#[verifier::opaque]
pub open spec fn claims_once(
    t0: Seq<Event>,
    t1: Seq<Event>,
    c: u64,
    key: Seq<char>,
    v: Option<Value>,
) -> bool {
    exists|k: int| #[trigger] last_claim(t0, t1, c, key, v, k)
}

/// From `t0` to `t1` the thread left the object or map at `c` as it was: it did not claim it, or
/// released it without having done anything but look around and make nodes.
#[verifier::opaque]
pub open spec fn backs_out(
    t0: Seq<Event>,
    t1: Seq<Event>,
    c: u64,
    key: Seq<char>,
    v: Option<Value>,
) -> bool {
    exists|k: int| #[trigger]
        last_claim(t0, t1, c, key, v, k) && (k < t1.len() ==> builds(
            t1.take(k + 1),
            t1.drop_last(),
        ) && t1.last() == store(c + 16, bumped(claimed(t1, k))))
}

/// From `t0` to `t1` the thread changed nothing but that it wrote `v` onto the node at `n`, in the
/// window from access `k` to `j`.
pub open spec fn rewrites_once(
    t0: Seq<Event>,
    t1: Seq<Event>,
    n: u64,
    v: Value,
    k: int,
    j: int,
) -> bool {
    &&& t0.len() <= k < j <= t1.len()
    &&& idle(t0, t1.take(k))
    &&& exists|sizes: u64| window_from(t1.take(j), k, n, #[trigger] rewrite_accesses(n, v, sizes))
    &&& unclaiming(t1, k + 1)
}

/// From `t0` to `t1` the thread changed nothing, or wrote `v` onto the node at `n` once.
#[verifier::opaque]
pub open spec fn at_most_rewrites(t0: Seq<Event>, t1: Seq<Event>, n: u64, v: Value) -> bool {
    idle(t0, t1) || exists|k: int, j: int| #[trigger] rewrites_once(t0, t1, n, v, k, j)
}

/// Making nodes claims no version.
pub proof fn lemma_quiet_builds(
    t0: Seq<Event>,
    t1: Seq<Event>,
    c: u64,
    key: Seq<char>,
    v: Option<Value>,
)
    requires
        builds(t0, t1),
    ensures
        quiet(t0, t1, c, key, v),
        unclaiming(t1, t0.len() as int),
{
    reveal(quiet);
    reveal(unclaiming);
    assert forall|x: int, off: u64| t0.len() <= x < t1.len() && #[trigger] marks(
        t1[x],
        off,
    ) implies off < SIZE_HEADER by {
        assert(building(t0, t1.take(x), t1[x]));
    }
}

pub proof fn lemma_quiet_idle(
    t0: Seq<Event>,
    t1: Seq<Event>,
    c: u64,
    key: Seq<char>,
    v: Option<Value>,
)
    requires
        idle(t0, t1),
    ensures
        quiet(t0, t1, c, key, v),
        unclaiming(t1, t0.len() as int),
{
    lemma_idle_builds(t0, t1);
    lemma_quiet_builds(t0, t1, c, key, v);
}

/// A claim of a node that was found stays one.
proof fn lemma_claims_found(
    t1: Seq<Event>,
    t2: Seq<Event>,
    x: int,
    off: u64,
    c: u64,
    key: Seq<char>,
    v: Value,
)
    requires
        extends(t1, t2),
        claims_found(t1, x, off, c, key, v),
    ensures
        claims_found(t2, x, off, c, key, v),
{
    let (g, i, y) = choose|g: u64, i: int, y: int| #[trigger]
        rewrites_found(t1, x, off, c, key, v, g, i, y);
    assert(t2.take(i) =~= t1.take(i)) by {
        assert(t2.take(t1.len() as int).take(i) =~= t2.take(i));
    }
    assert(t2.take(y) =~= t1.take(y)) by {
        assert(t2.take(t1.len() as int).take(y) =~= t2.take(y));
    }
    assert(rewrites_found(t2, x, off, c, key, v, g, i, y));
}

pub proof fn lemma_quiet_join(
    t0: Seq<Event>,
    t1: Seq<Event>,
    t2: Seq<Event>,
    c: u64,
    key: Seq<char>,
    v: Option<Value>,
)
    requires
        t0.len() <= t1.len(),
        extends(t1, t2),
        quiet(t0, t1, c, key, v),
        quiet(t1, t2, c, key, v),
    ensures
        quiet(t0, t2, c, key, v),
{
    reveal(quiet);
    assert forall|x: int, off: u64|
        t0.len() <= x < t2.len() && #[trigger] marks(t2[x], off) && off
            >= SIZE_HEADER implies v is Some && claims_found(t2, x, off, c, key, v->0) by {
        if x < t1.len() {
            assert(t2.take(t1.len() as int)[x] == t2[x]);
            assert(marks(t1[x], off));
            lemma_claims_found(t1, t2, x, off, c, key, v->0);
        }
    }
}

/// Writing the value onto a node that was found is quiet.
pub proof fn lemma_quiet_rewrite(
    t1: Seq<Event>,
    t2: Seq<Event>,
    t3: Seq<Event>,
    c: u64,
    key: Seq<char>,
    seq: u64,
    slot: u32,
    h: u64,
    v: Value,
)
    requires
        looked_up(t1, t2, c, key, seq, Some((slot, h))),
        extends(t2, t3),
        at_most_rewrites(t2, t3, off_of(h), v),
    ensures
        quiet(t2, t3, c, key, Some(v)),
{
    reveal(quiet);
    reveal(unclaiming);
    reveal(at_most_rewrites);
    if idle(t2, t3) {
        lemma_quiet_idle(t2, t3, c, key, Some(v));
    } else {
        let n = off_of(h);
        let (k, j) = choose|k: int, j: int| #[trigger] rewrites_once(t2, t3, n, v, k, j);
        assert forall|x: int, off: u64|
            t2.len() <= x < t3.len() && #[trigger] marks(t3[x], off) && off
                >= SIZE_HEADER implies claims_found(t3, x, off, c, key, v) by {
            if x < k {
                assert(changes_nothing(t3.take(k)[x]));
            }
            assert(x == k);
            let sizes = choose|sizes: u64|
                window_from(t3.take(j), k, n, #[trigger] rewrite_accesses(n, v, sizes));
            assert(marks(t3.take(j)[k], seq_off(n)));
            assert(t3.take(t2.len() as int) == t2);
            let m = choose|m: int|
                t1.len() <= m && #[trigger] crate::graph::lookup(
                    t2,
                    m,
                    c,
                    key,
                    seq,
                    Some((slot, h)),
                );
            assert(crate::graph::lookup(t2, m, c, key, seq, Some((slot, h))));
            assert(looked_up(Seq::empty(), t2, c, key, seq, Some((slot, h))));
            assert(rewrites_found(t3, k, off, c, key, v, h, t2.len() as int, j));
        }
    }
}

/// A write in place, as it was recorded, is one.
pub proof fn lemma_rewrites(
    t0: Seq<Event>,
    t1: Seq<Event>,
    t2: Seq<Event>,
    t3: Seq<Event>,
    n: u64,
    hi: int,
    v: Value,
)
    requires
        idle(t0, t1),
        extends(t1, t2),
        at_most_one_window(t1, t2, n, hi),
        node_rewritten(t1, t2, n, v),
        idle(t2, t3),
    ensures
        at_most_rewrites(t0, t3, n, v),
{
    reveal(at_most_rewrites);
    reveal(unclaiming);
    let sizes = choose|sizes: u64|
        ends_in_window(t1, t2, n, #[trigger] rewrite_accesses(n, v, sizes));
    let inner = rewrite_accesses(n, v, sizes);
    let k = t2.len() - inner.len() - 2;
    let j = t2.len() as int;
    assert(!changes_nothing(t2[t2.len() - 1]));
    let w = choose|w: int| window(t1, t2, n, hi, w);
    let u = t2.drop_last();
    assert(u[k] == t2[k]);
    if k < w {
        assert(changes_nothing(u.take(w)[k]));
    }
    if w < k {
        assert(inside_window(u[k], n, hi));
    }
    assert(t3.take(j) == t2);
    assert(t3.take(k) =~= u.take(w));
    assert(t3.take(k).take(t1.len() as int) =~= t1);
    crate::trace::lemma_idle_join(t0, t1, t3.take(k));
    assert forall|x: int, off: u64| k + 1 <= x < t3.len() && #[trigger] marks(
        t3[x],
        off,
    ) implies off < SIZE_HEADER by {
        if x < j - 1 {
            assert(t3.take(j)[x] == t3[x]);
            assert(inside_window(u[x], n, hi));
        } else if x >= j {
            assert(changes_nothing(t3[x]));
        } else {
            assert(t3.take(j)[x] == t3[x]);
        }
    }
    assert(rewrites_once(t0, t3, n, v, k, j));
}

/// Changing nothing before is no matter.
pub proof fn lemma_rewrites_later(t0: Seq<Event>, t1: Seq<Event>, t2: Seq<Event>, n: u64, v: Value)
    requires
        idle(t0, t1),
        extends(t1, t2),
        at_most_rewrites(t1, t2, n, v),
    ensures
        at_most_rewrites(t0, t2, n, v),
{
    reveal(at_most_rewrites);
    if idle(t1, t2) {
        crate::trace::lemma_idle_join(t0, t1, t2);
    } else {
        let (k, j) = choose|k: int, j: int| #[trigger] rewrites_once(t1, t2, n, v, k, j);
        crate::trace::lemma_idle_join(t0, t1, t2.take(k));
        assert(rewrites_once(t0, t2, n, v, k, j));
    }
}

/// From `t0` to `t1` the thread made nodes, and then, with its last three accesses, claimed the
/// object or map at `c`, and no version after that.
pub open spec fn claims_last(t0: Seq<Event>, t1: Seq<Event>, c: u64) -> bool {
    let k = t1.len() - 3;
    &&& t0.len() <= k
    &&& builds(t0, t1.take(k))
    &&& marks(t1[k], seq_off(c))
    &&& unclaiming(t1, k + 1)
}

/// Looking around and making nodes before is no matter.
pub proof fn lemma_claims_last(t0: Seq<Event>, t1: Seq<Event>, t2: Seq<Event>, c: u64)
    requires
        builds(t0, t1),
        extends(t1, t2),
        claims_last(t1, t2, c),
    ensures
        claims_last(t0, t2, c),
{
    lemma_builds_join(t0, t1, t2.take(t2.len() - 3));
}

/// Claiming nothing goes on.
pub proof fn lemma_unclaiming(t1: Seq<Event>, t2: Seq<Event>, k: int)
    requires
        0 <= k,
        extends(t1, t2),
        unclaiming(t1, k),
        unclaiming(t2, t1.len() as int),
    ensures
        unclaiming(t2, k),
{
    reveal(unclaiming);
    assert forall|x: int, off: u64| k <= x < t2.len() && #[trigger] marks(
        t2[x],
        off,
    ) implies off < SIZE_HEADER by {
        if x < t1.len() {
            assert(t2.take(t1.len() as int)[x] == t2[x]);
            assert(marks(t1[x], off));
        }
    }
}

/// A thread that was quiet, and then made nodes, claimed the object or map and claimed nothing
/// more, claims it once.
pub proof fn lemma_once(
    t0: Seq<Event>,
    t1: Seq<Event>,
    t2: Seq<Event>,
    c: u64,
    key: Seq<char>,
    v: Option<Value>,
    k: int,
)
    requires
        t0.len() <= t1.len() <= k < t2.len(),
        extends(t1, t2),
        quiet(t0, t1, c, key, v),
        builds(t1, t2.take(k)),
        marks(t2[k], seq_off(c)),
        unclaiming(t2, k + 1),
    ensures
        last_claim(t0, t2, c, key, v, k),
        claims_once(t0, t2, c, key, v),
{
    reveal(claims_once);
    lemma_quiet_builds(t1, t2.take(k), c, key, v);
    lemma_quiet_join(t0, t1, t2.take(k), c, key, v);
}

/// Changing nothing before is no matter.
pub proof fn lemma_claims_once(
    t0: Seq<Event>,
    t1: Seq<Event>,
    t2: Seq<Event>,
    c: u64,
    key: Seq<char>,
    v: Option<Value>,
)
    requires
        idle(t0, t1),
        extends(t1, t2),
        claims_once(t1, t2, c, key, v),
    ensures
        claims_once(t0, t2, c, key, v),
{
    reveal(claims_once);
    let k = choose|k: int| #[trigger] last_claim(t1, t2, c, key, v, k);
    lemma_quiet_idle(t0, t1, c, key, v);
    assert(t2.take(k).take(t1.len() as int) =~= t2.take(t1.len() as int));
    lemma_quiet_join(t0, t1, t2.take(k), c, key, v);
    assert(last_claim(t0, t2, c, key, v, k));
}

/// Changing nothing afterwards is no matter.
pub proof fn lemma_claims_once_then(
    t0: Seq<Event>,
    t1: Seq<Event>,
    t2: Seq<Event>,
    c: u64,
    key: Seq<char>,
    v: Option<Value>,
)
    requires
        t0.len() <= t1.len(),
        claims_once(t0, t1, c, key, v),
        idle(t1, t2),
    ensures
        claims_once(t0, t2, c, key, v),
{
    reveal(claims_once);
    let k = choose|k: int| #[trigger] last_claim(t0, t1, c, key, v, k);
    lemma_quiet_idle(t1, t2, c, key, v);
    if k < t1.len() {
        assert(t2.take(k) =~= t1.take(k)) by {
            assert(t2.take(t1.len() as int).take(k) =~= t2.take(k));
        }
        assert(t2.take(t1.len() as int)[k] == t2[k]);
        lemma_unclaiming(t1, t2, k + 1);
        assert(last_claim(t0, t2, c, key, v, k));
    } else {
        assert(t1.take(k) =~= t1);
        lemma_quiet_join(t0, t1, t2, c, key, v);
        lemma_none(t0, t2, c, key, v);
    }
}

/// A thread that was quiet leaves the object or map as it was.
pub proof fn lemma_none(
    t0: Seq<Event>,
    t1: Seq<Event>,
    c: u64,
    key: Seq<char>,
    v: Option<Value>,
)
    requires
        t0.len() <= t1.len(),
        quiet(t0, t1, c, key, v),
    ensures
        claims_once(t0, t1, c, key, v),
        backs_out(t0, t1, c, key, v),
{
    reveal(claims_once);
    reveal(backs_out);
    assert(t1.take(t1.len() as int) =~= t1);
    assert(last_claim(t0, t1, c, key, v, t1.len() as int));
}

/// From `t0` to `t1` the thread claimed the array at `a` at most once, and besides it no version.
pub open spec fn claims_array(t0: Seq<Event>, t1: Seq<Event>, a: u64) -> bool {
    claims_once(t0, t1, a, Seq::empty(), None)
}

/// Making nodes, and then changing an array in one window, claims the array once.
pub proof fn lemma_claims_array(t0: Seq<Event>, t1: Seq<Event>, t2: Seq<Event>, a: u64)
    requires
        builds(t0, t1),
        extends(t1, t2),
        stays_inside(t1, t2, a, 8),
    ensures
        claims_array(t0, t2, a),
{
    let key = Seq::<char>::empty();
    lemma_quiet_builds(t0, t1, a, key, None);
    if idle(t1, t2) {
        lemma_none(t0, t1, a, key, None);
        lemma_claims_once_then(t0, t1, t2, a, key, None);
    } else {
        let (hi, j) = choose|hi: int, j: int| #[trigger]
            end_seen(t1, t2, a, 8, hi, j) && at_most_one_window(t1, t2, a, hi);
        let k = choose|k: int| window(t1, t2, a, hi, k);
        let u = t2.drop_last();
        assert(t2.take(k) =~= u.take(k));
        lemma_idle_builds(t1, t2.take(k));
        assert(unclaiming(t2, k + 1)) by {
            reveal(unclaiming);
            assert forall|x: int, off: u64| k + 1 <= x < t2.len() && #[trigger] marks(
                t2[x],
                off,
            ) implies off < SIZE_HEADER by {
                if x < u.len() {
                    assert(inside_window(u[x], a, hi));
                }
            }
        }
        lemma_once(t0, t1, t2, a, key, None, k);
    }
}

} // verus!
