//! The nodes that threads work on: those that a region holds at the beginning, and those that the
//! threads make.
//!
//! A node that a thread has made stands as soon as it is complete. It becomes a key if the first
//! thing that its maker does, apart from looking around and making nodes, is to write its handle;
//! else it may become a value.
use crate::arena::{takes, LOCK_FREE, OFF_BUMP, OFF_LOCK};
use crate::discipline::{building, builds};
use crate::history::{coherent, lemma_place, lemma_thread_prefix, of_thread, place, Step};
use crate::layout::{cap_of, is_node, lemma_payload_len, not_a_key, table_kind, tag_of};
use crate::memory::{in_words, Event};
use crate::node::NODE_HDR;
use crate::record::{header_stores, made_at, node_stores, store, stores};
use crate::sharing::{header_in_order, law_blocks_apart};
use crate::trace::extends;
use crate::value::{
    container_kind, handle, kind_of, lemma_handle, off_of, Value, H_INVALID, KIND_ARRAY, KIND_STR,
    OFFSET_LIMIT,
};
use crate::words::{lemma_halves, lower, upper};
use vstd::prelude::*;

verus! {

/// A node: where it is, its kind and its capacity, and the thread that made it, with its accesses
/// up to `d`; for a node of the beginning both are zero.
pub ghost struct Spot {
    pub n: u64,
    pub kind: u8,
    pub cap: u32,
    pub p: int,
    pub d: int,
}

impl Spot {
    /// How many bytes the node takes up.
    pub open spec fn room(self) -> int {
        if self.kind == KIND_ARRAY {
            NODE_HDR + 8 * self.cap
        } else if table_kind(self.kind) {
            NODE_HDR + 16 * self.cap
        } else {
            NODE_HDR + self.cap
        }
    }

    /// Where the node ends.
    pub open spec fn end(self) -> int {
        self.n + self.room()
    }

    /// The word at `a` is part of the node.
    pub open spec fn has(self, a: int) -> bool {
        self.n <= a < self.end()
    }

    /// How many writes make the node.
    pub open spec fn writes(self) -> int {
        if container_kind(self.kind) {
            4
        } else {
            4 + self.cap / 8
        }
    }

    /// The access with which its maker took the block for the node.
    pub open spec fn born(self) -> int {
        self.d - self.writes() - 2
    }
}

/// With its accesses up to `s.d` the thread made the container `s`.
pub open spec fn container_at(t: Seq<Event>, s: Spot) -> bool {
    &&& container_kind(s.kind)
    &&& 6 <= s.d <= t.len()
    &&& t.take(s.d).skip(s.d - 4) == header_stores(
        s.n as int,
        s.kind,
        s.cap,
        0,
        lower(s.room() as u64),
    )
    &&& t[s.d - 5] == (Event::Store { off: OFF_LOCK, val: LOCK_FREE })
    &&& takes(t[s.d - 6], s.n, s.room() as u64)
}

/// With its accesses up to `s.d` the thread made the scalar `s`, for `v`.
pub open spec fn scalar_at(t: Seq<Event>, s: Spot, v: Value) -> bool {
    made_at(t, handle(s.kind, s.n), v, s.d) && v.size() == s.cap
}

/// With its accesses up to `s.d` the thread made the node `s`.
pub open spec fn made_spot(t: Seq<Event>, s: Spot) -> bool {
    s.n < OFFSET_LIMIT && (container_at(t, s) || exists|v: Value| #[trigger] scalar_at(t, s, v))
}

/// The node `s` stands after the history `h`, which began on the region `ws`.
pub open spec fn stands(ws: Seq<u64>, h: Seq<Step>, s: Spot) -> bool {
    if s.d == 0 {
        s.p == 0 && is_node(ws, s.n as int) && tag_of(ws, s.n as int) == s.kind && cap_of(
            ws,
            s.n as int,
        ) == s.cap
    } else {
        s.d > 0 && made_spot(of_thread(h, s.p), s)
    }
}

/// The moment from which on the node stands.
pub open spec fn since(h: Seq<Step>, s: Spot) -> int {
    if s.d == 0 {
        0
    } else {
        place(h, s.p, s.d - 1) + 1
    }
}

/// Where write `j` of those that make the node goes.
pub open spec fn goes_to(s: Spot, j: int) -> int {
    if j < 4 {
        s.n + 8 * j
    } else {
        s.n + NODE_HDR + 8 * (j - 4)
    }
}

/// What making a node is, access by access.
#[verifier::rlimit(40)]
pub proof fn lemma_made_spot(t: Seq<Event>, s: Spot)
    requires
        made_spot(t, s),
    ensures
        0 <= s.born(),
        s.born() + 6 <= s.d <= t.len(),
        takes(t[s.born()], s.n, s.room() as u64),
        NODE_HDR <= s.room() <= u64::MAX,
        s.room() % 8 == 0,
        t[s.born() + 1] == (Event::Store { off: OFF_LOCK, val: LOCK_FREE }),
        forall|j: int|
            s.born() + 2 <= j < s.d ==> (#[trigger] t[j] matches Event::Store { off, .. } && off
                == goes_to(s, j - s.born() - 2)),
        t[s.born() + 2] matches Event::Store { val, .. } && lower(val) == s.kind,
        t[s.born() + 3] matches Event::Store { val, .. } && lower(val) == s.cap && (s.kind == KIND_STR
            ==> upper(val) <= s.cap),
        t[s.born() + 4] == store(s.n + 16, 0),
        t[s.born() + 5] == store(s.n + 24, 0),
        !container_kind(s.kind) ==> s.cap % 8 == 0 && (s.kind == KIND_STR || s.cap >= 8),
{
    if container_at(t, s) {
        let w = header_stores(s.n as int, s.kind, s.cap, 0, lower(s.room() as u64));
        assert forall|x: int| 0 <= x < 4 implies #[trigger] w[x] == t[s.d - 4 + x] by {
            assert(t.take(s.d).skip(s.d - 4)[x] == t[s.d - 4 + x]);
        }
        assert(w[0] == t[s.d - 4] && w[1] == t[s.d - 3] && w[2] == t[s.d - 2] && w[3] == t[s.d - 1]);
        lemma_halves(s.kind as u32, lower(s.room() as u64));
        lemma_halves(s.cap, 0);
    } else {
        let v = choose|v: Value| #[trigger] scalar_at(t, s, v);
        lemma_handle(s.kind, s.n);
        lemma_payload_len(v);
        let size = lower((NODE_HDR + v.size()) as u64);
        let head = header_stores(s.n as int, v.kind(), v.size() as u32, v.store() as u32, size);
        let tail = stores(s.n + NODE_HDR, v.payload());
        let w = node_stores(s.n as int, v);
        assert(w == head + tail);
        assert(w.len() == s.writes());
        let b = s.d - w.len();
        assert forall|x: int| 0 <= x < w.len() implies #[trigger] w[x] == t[b + x] by {
            assert(t.take(s.d).skip(b)[x] == t[b + x]);
        }
        assert(w[0] == head[0] && w[1] == head[1] && w[2] == head[2] && w[3] == head[3]);
        assert(w[0] == t[b] && w[1] == t[b + 1] && w[2] == t[b + 2] && w[3] == t[b + 3]);
        lemma_halves(v.kind() as u32, size);
        lemma_halves(v.size() as u32, v.store() as u32);
        assert forall|j: int| s.born() + 2 <= j < s.d implies (
        #[trigger] t[j] matches Event::Store { off, .. } && off == goes_to(s, j - s.born() - 2)) by {
            let x = j - b;
            assert(w[x] == t[b + x]);
            if x < 4 {
                assert(w[x] == head[x]);
            } else {
                assert(w[x] == tail[x - 4]);
            }
        }
    }
}

/// What was made stays made.
pub proof fn lemma_spot_later(t1: Seq<Event>, t2: Seq<Event>, s: Spot)
    requires
        made_spot(t1, s),
        extends(t1, t2),
    ensures
        made_spot(t2, s),
{
    assert(t2.take(s.d) =~= t1.take(s.d)) by {
        assert(t2.take(t1.len() as int).take(s.d) =~= t2.take(s.d));
    }
    if container_at(t1, s) {
        assert(t2.take(t1.len() as int)[s.d - 5] == t2[s.d - 5]);
        assert(t2.take(t1.len() as int)[s.d - 6] == t2[s.d - 6]);
    } else {
        let v = choose|v: Value| #[trigger] scalar_at(t1, s, v);
        crate::discipline::lemma_made_at(t1, t2, handle(s.kind, s.n), v, s.d);
        assert(scalar_at(t2, s, v));
    }
}

/// What was made by then has been made.
pub proof fn lemma_spot_earlier(t1: Seq<Event>, t2: Seq<Event>, s: Spot)
    requires
        made_spot(t2, s),
        extends(t1, t2),
        s.d <= t1.len(),
    ensures
        made_spot(t1, s),
{
    assert(t2.take(s.d) =~= t1.take(s.d)) by {
        assert(t2.take(t1.len() as int).take(s.d) =~= t2.take(s.d));
    }
    lemma_made_spot(t2, s);
    assert forall|j: int| 0 <= j < s.d implies t1[j] == #[trigger] t2[j] by {
        assert(t2.take(t1.len() as int)[j] == t2[j]);
    }
    if container_at(t2, s) {
        assert(container_at(t1, s));
    } else {
        let v = choose|v: Value| #[trigger] scalar_at(t2, s, v);
        lemma_handle(s.kind, s.n);
        lemma_payload_len(v);
        assert(scalar_at(t1, s, v));
    }
}

/// The accesses of a thread go on as the history does.
pub proof fn lemma_thread_extends(h: Seq<Step>, p: int, j: int)
    requires
        0 <= j <= h.len(),
    ensures
        extends(of_thread(h.take(j), p), of_thread(h, p)),
{
    lemma_thread_prefix(h, p, j);
}

/// A node that stands goes on standing.
pub proof fn lemma_stands_later(ws: Seq<u64>, h: Seq<Step>, j: int, s: Spot)
    requires
        0 <= j <= h.len(),
        stands(ws, h.take(j), s),
    ensures
        stands(ws, h, s),
{
    if s.d != 0 {
        lemma_thread_extends(h, s.p, j);
        lemma_spot_later(of_thread(h.take(j), s.p), of_thread(h, s.p), s);
    }
}

/// A block makes one node.
pub proof fn lemma_same_birth(t: Seq<Event>, s: Spot, r: Spot)
    requires
        made_spot(t, s),
        made_spot(t, r),
        s.born() == r.born(),
        s.p == r.p,
    ensures
        s == r,
{
    lemma_made_spot(t, s);
    lemma_made_spot(t, r);
}

/// Blocks that were taken with different accesses have no byte in common.
pub proof fn lemma_takes_apart(
    ws: Seq<u64>,
    h: Seq<Step>,
    p: int,
    i: int,
    b: u64,
    n: u64,
    q: int,
    j: int,
    c: u64,
    m: u64,
)
    requires
        coherent(ws, h),
        in_words(ws, OFF_BUMP as int),
        forall|k: int| 0 <= k < h.len() ==> header_in_order((#[trigger] h[k]).event),
        0 <= i < of_thread(h, p).len(),
        0 <= j < of_thread(h, q).len(),
        takes(of_thread(h, p)[i], b, n),
        takes(of_thread(h, q)[j], c, m),
    ensures
        p == q && i == j || b + n <= c || c + m <= b,
{
    lemma_place(ws, h, p, i);
    lemma_place(ws, h, q, j);
    let x = place(h, p, i);
    let y = place(h, q, j);
    assert forall|k: int| 0 <= k < h.len() implies crate::arena::bumps_properly(
        (#[trigger] h[k]).event,
    ) by {
        assert(header_in_order(h[k].event));
    }
    if x < y {
        law_blocks_apart(ws, h, x, y, b, n, c, m);
    } else if y < x {
        law_blocks_apart(ws, h, y, x, c, m, b, n);
    }
}

// Keys and values.

/// After access `d` the thread did nothing but look around and make nodes, up to access `x`, which
/// is something else.
pub open spec fn first_change(t: Seq<Event>, d: int, x: int) -> bool {
    &&& 0 <= d <= x < t.len()
    &&& builds(t.take(d), t.take(x))
    &&& !building(t.take(d), t.take(x), t[x])
}

/// The access writes the handle of the node at `n`.
pub open spec fn stores_node(e: Event, n: u64) -> bool {
    e matches Event::Store { val, .. } && val != H_INVALID && off_of(val) == n
}

/// Its maker has made the node a key.
pub open spec fn keyed(t: Seq<Event>, s: Spot) -> bool {
    exists|x: int| #[trigger] first_change(t, s.d, x) && stores_node(t[x], s.n)
}

/// Its maker has gone on without making the node a key.
pub open spec fn settled(t: Seq<Event>, s: Spot) -> bool {
    exists|x: int| #[trigger] first_change(t, s.d, x) && !stores_node(t[x], s.n)
}

/// The node `s` is the text of a key.
pub open spec fn is_key(ws: Seq<u64>, h: Seq<Step>, s: Spot) -> bool {
    s.kind == KIND_STR && if s.d == 0 {
        !not_a_key(ws, s.n as int)
    } else {
        keyed(of_thread(h, s.p), s)
    }
}

/// The node `s` may be a value: it is a container, or a scalar that is not, and will not become,
/// the text of a key.
pub open spec fn is_value(ws: Seq<u64>, h: Seq<Step>, s: Spot) -> bool {
    if s.d == 0 {
        not_a_key(ws, s.n as int)
    } else {
        container_kind(s.kind) || settled(of_thread(h, s.p), s)
    }
}

/// The handle may be a key of an object or map: it is none, or leads to the text of a key.
pub open spec fn key_fits(ws: Seq<u64>, h: Seq<Step>, g: u64) -> bool {
    g == H_INVALID || exists|s: Spot| #[trigger]
        stands(ws, h, s) && is_key(ws, h, s) && off_of(g) == s.n && kind_of(g) == s.kind
}

/// The handle may be a value: it is none, or leads to a node that may be one.
pub open spec fn value_fits(ws: Seq<u64>, h: Seq<Step>, g: u64) -> bool {
    g == H_INVALID || exists|s: Spot| #[trigger]
        stands(ws, h, s) && is_value(ws, h, s) && off_of(g) == s.n && kind_of(g) == s.kind
}

/// What comes first is one access.
pub proof fn lemma_first_change(t: Seq<Event>, d: int, x: int, y: int)
    requires
        first_change(t, d, x),
        first_change(t, d, y),
    ensures
        x == y,
{
    if x < y {
        assert(building(t.take(d), t.take(y).take(x), t.take(y)[x]));
        assert(t.take(y).take(x) =~= t.take(x));
    } else if y < x {
        assert(building(t.take(d), t.take(x).take(y), t.take(x)[y]));
        assert(t.take(x).take(y) =~= t.take(y));
    }
}

/// What comes first stays that.
pub proof fn lemma_first_later(t1: Seq<Event>, t2: Seq<Event>, d: int, x: int)
    requires
        extends(t1, t2),
        first_change(t1, d, x),
    ensures
        first_change(t2, d, x),
        t2[x] == t1[x],
{
    assert(t2.take(t1.len() as int)[x] == t2[x]);
    assert(t2.take(t1.len() as int).take(d) =~= t2.take(d));
    assert(t2.take(t1.len() as int).take(x) =~= t2.take(x));
    assert(t1.take(d) =~= t2.take(d));
    assert(t1.take(x) =~= t2.take(x));
}

/// A key stays a key, and a value a value.
pub proof fn lemma_role_later(ws: Seq<u64>, h: Seq<Step>, j: int, s: Spot)
    requires
        0 <= j <= h.len(),
    ensures
        is_key(ws, h.take(j), s) ==> is_key(ws, h, s),
        is_value(ws, h.take(j), s) ==> is_value(ws, h, s),
{
    if s.d != 0 {
        lemma_thread_extends(h, s.p, j);
        let t1 = of_thread(h.take(j), s.p);
        let t2 = of_thread(h, s.p);
        if keyed(t1, s) {
            let x = choose|x: int| #[trigger] first_change(t1, s.d, x) && stores_node(t1[x], s.n);
            lemma_first_later(t1, t2, s.d, x);
        }
        if settled(t1, s) {
            let x = choose|x: int| #[trigger] first_change(t1, s.d, x) && !stores_node(t1[x], s.n);
            lemma_first_later(t1, t2, s.d, x);
        }
    }
}

/// No key is a value.
pub proof fn lemma_roles_apart(ws: Seq<u64>, h: Seq<Step>, s: Spot)
    ensures
        !(is_key(ws, h, s) && is_value(ws, h, s)),
{
    let t = of_thread(h, s.p);
    if s.d != 0 && is_key(ws, h, s) && is_value(ws, h, s) {
        let x = choose|x: int| #[trigger] first_change(t, s.d, x) && stores_node(t[x], s.n);
        let y = choose|y: int| #[trigger] first_change(t, s.d, y) && !stores_node(t[y], s.n);
        lemma_first_change(t, s.d, x, y);
    }
}

pub proof fn lemma_key_fits_later(ws: Seq<u64>, h: Seq<Step>, j: int, g: u64)
    requires
        0 <= j <= h.len(),
    ensures
        key_fits(ws, h.take(j), g) ==> key_fits(ws, h, g),
        value_fits(ws, h.take(j), g) ==> value_fits(ws, h, g),
{
    if g != H_INVALID {
        if key_fits(ws, h.take(j), g) {
            let s = choose|s: Spot| #[trigger]
                stands(ws, h.take(j), s) && is_key(ws, h.take(j), s) && off_of(g) == s.n && kind_of(
                    g,
                ) == s.kind;
            lemma_stands_later(ws, h, j, s);
            lemma_role_later(ws, h, j, s);
        }
        if value_fits(ws, h.take(j), g) {
            let s = choose|s: Spot| #[trigger]
                stands(ws, h.take(j), s) && is_value(ws, h.take(j), s) && off_of(g) == s.n
                    && kind_of(g) == s.kind;
            lemma_stands_later(ws, h, j, s);
            lemma_role_later(ws, h, j, s);
        }
    }
}

} // verus!
