//! Node records: their header, their creation, and reading and writing them
//! under their version.
//!
//! Every node carries a version whose low bit marks an active writer. Readers
//! take the version, read, and look at the version again; they start over if it
//! has changed or was odd. Writers claim the version with a compare-and-swap
//! that sets its low bit, work on the node, and leave the next even version.
use crate::arena::{
    aligned, alloc_aligned, allocated, block_given, block_seen, full_seen, lemma_full_seen, odd,
    seq_is_odd,
};
use crate::discipline::{
    builds, fills, free_found, goes_up, in_block, lemma_alloc_builds, lemma_block_seen,
    lemma_filled_builds, lemma_idle_builds, own_block, tags_scalar, writes,
};
use crate::layout::{kept, lemma_payload_len, lemma_with_scalar, wf};
use crate::memory::{
    in_words, lemma_word_put, lemma_word_put_all, put, put_all, word, Event, Memory,
};
use crate::record::{
    agrees, answered, ends_with, header_stores, lemma_ends_in_window, lemma_ends_with,
    lemma_node_made, made_at, node_made, node_rewritten, node_stores, rewrite_accesses, stores,
};
use crate::trace::{
    at_most_one_window, bumped, claimed, extends, idle, lemma_extends_join, lemma_extends_push,
    lemma_idle_push, lemma_open_window_start, lemma_reads_only_idle, lemma_stable,
    lemma_stores_within_push, lemma_stores_within_start, lemma_uses_allocator, lemma_window_close,
    loads, open_window, reads_only, released, released_but, seen, seq_off, stable_from,
    stores_within, uses_allocator,
};
use crate::value::{
    bigint, handle, hkind, hoff, kind_of, lemma_handle, make_handle, off_of, GraphError, RVal,
    Scalar, Value, H_INVALID, KIND_ARRAY, KIND_BIGINT, KIND_BOOL, KIND_F64, KIND_INT, KIND_MAP,
    KIND_OBJECT, KIND_STR, OFFSET_LIMIT,
};
use crate::words::{
    byte_of, halves, join_halves, lemma_halves, lower, lower_half, pack_word, unpack_word, upper,
    upper_half, words_of,
};
use vstd::prelude::*;
use vstd::utf8::{decode_utf8, valid_utf8};

verus! {

broadcast use crate::trace::group_trace;

/// Size of the header of a node record.
pub const NODE_HDR: u64 = 40;

/// Default slot capacity of new containers.
pub const DEFAULT_CAP: u32 = 16;

/// The longest payload that the 32-bit fields of a node can describe.
pub const STORE_LIMIT: u64 = 0xffff_fff8;

/// Header of a node record.
pub struct NodeHeader {
    pub tag: u8,
    pub node_size: u32,
    /// Container: number of slots. String: payload capacity in bytes.
    pub cap: u32,
    /// Value: payload length in bytes. Container: unused.
    pub store: u32,
    pub seqlock: u64,
    pub count: u64,
}

/// The header of the node at `n`.
pub open spec fn node_header(ws: Seq<u64>, n: int) -> NodeHeader {
    NodeHeader {
        tag: (lower(word(ws, n)) % 256) as u8,
        node_size: upper(word(ws, n)),
        cap: lower(word(ws, n + 8)),
        store: upper(word(ws, n + 8)),
        seqlock: word(ws, n + 16),
        count: word(ws, n + 24),
    }
}

/// Reads the header of the node at `off`.
pub fn header<M: Memory>(mem: &mut M, off: u64) -> (hdr: NodeHeader)
    requires
        off < OFFSET_LIMIT,
    ensures
        final(mem).words() == old(mem).words(),
        final(mem).patience() == old(mem).patience(),
        reads_only(old(mem).trace(), final(mem).trace()),
        forall|m: Seq<u64>| #[trigger] agrees(old(mem).trace(), final(mem).trace(), m) ==> hdr
            == node_header(m, off as int),
        final(mem).undisturbed() ==> old(mem).undisturbed() && hdr == node_header(
            old(mem).words(),
            off as int,
        ),
{
    let first: u64 = mem.load(off);
    let sizes: u64 = mem.load(off + 8);
    let seqlock: u64 = mem.load(off + 16);
    let count: u64 = mem.load(off + 24);
    proof {
        let k = old(mem).trace().len() as int;
        let t = mem.trace();
        assert forall|m: Seq<u64>| #[trigger] agrees(old(mem).trace(), t, m) implies first == word(
            m,
            off as int,
        ) && sizes == word(m, off + 8) && seqlock == word(m, off + 16) && count == word(
            m,
            off + 24,
        ) by {
            assert(answered(m, t[k]) && answered(m, t[k + 1]));
            assert(answered(m, t[k + 2]) && answered(m, t[k + 3]));
        }
    }
    NodeHeader {
        tag: (lower_half(first) % 256) as u8,
        node_size: upper_half(first),
        cap: lower_half(sizes),
        store: upper_half(sizes),
        seqlock,
        count,
    }
}

/// Access `j` read that the capacity of the node at `n` is `cap`.
pub open spec fn cap_seen(t: Seq<Event>, j: int, n: u64, cap: u32) -> bool {
    loads(t, j, n + 8) && lower(seen(t, j)) == cap
}

/// Reads the slot capacity of the container at `off`.
pub fn load_cap<M: Memory>(mem: &mut M, off: u64) -> (cap: u32)
    requires
        off < OFFSET_LIMIT,
    ensures
        final(mem).words() == old(mem).words(),
        final(mem).patience() == old(mem).patience(),
        reads_only(old(mem).trace(), final(mem).trace()),
        final(mem).trace().len() == old(mem).trace().len() + 1,
        cap_seen(final(mem).trace(), old(mem).trace().len() as int, off, cap),
        forall|m: Seq<u64>| #[trigger] agrees(old(mem).trace(), final(mem).trace(), m) ==> cap
            == node_header(m, off as int).cap,
        final(mem).undisturbed() ==> old(mem).undisturbed() && cap == node_header(
            old(mem).words(),
            off as int,
        ).cap,
{
    let sizes: u64 = mem.load(off + 8);
    proof {
        let t0 = old(mem).trace();
        assert forall|m: Seq<u64>| #[trigger] agrees(t0, mem.trace(), m) implies lower(sizes)
            == node_header(m, off as int).cap by {
            assert(answered(m, mem.trace()[t0.len() as int]));
        }
    }
    lower_half(sizes)
}

// Creation.

/// `ws` with a header written at `off`.
pub open spec fn node_init(
    ws: Seq<u64>,
    off: int,
    tag: u8,
    cap: u32,
    store: u32,
    node_size: u32,
) -> Seq<u64> {
    let w = put(ws, off, halves(tag as u32, node_size));
    let w = put(w, off + 8, halves(cap, store));
    let w = put(w, off + 16, 0);
    put(w, off + 24, 0)
}

/// Writes the header of a new node.
fn init_node<M: Memory>(mem: &mut M, off: u64, tag: u8, cap: u32, store: u32, node_size: u32)
    requires
        off < OFFSET_LIMIT,
    ensures
        final(mem).words() == node_init(old(mem).words(), off as int, tag, cap, store, node_size),
        final(mem).patience() == old(mem).patience(),
        final(mem).undisturbed() == old(mem).undisturbed(),
        released(old(mem).trace(), final(mem).trace()),
        stores_within(old(mem).trace(), final(mem).trace(), off as int, off + NODE_HDR),
        final(mem).trace() == old(mem).trace() + header_stores(
            off as int,
            tag,
            cap,
            store,
            node_size,
        ),
{
    broadcast use crate::trace::group_stores_within;

    mem.store(off, join_halves(tag as u32, node_size));
    mem.store(off + 8, join_halves(cap, store));
    mem.store(off + 16, 0);
    mem.store(off + 24, 0);
    assert(mem.trace() =~= old(mem).trace() + header_stores(
        off as int,
        tag,
        cap,
        store,
        node_size,
    ));
}

/// What allocating a node of `size` bytes gives: an offset that a handle can name.
pub open spec fn node_allocated(ws: Seq<u64>, size: u64) -> (Option<u64>, Seq<u64>) {
    match allocated(ws, size) {
        (Some(off), w) => if off < OFFSET_LIMIT {
            (Some(off), w)
        } else {
            (None, w)
        },
        (None, w) => (None, w),
    }
}

/// Since `t0` the thread found no space for a node of `size` bytes: less is left, or what is left
/// lies where no handle leads.
pub open spec fn no_space(t0: Seq<Event>, t1: Seq<Event>, size: u64) -> bool {
    full_seen(t0, t1, size) || exists|b: u64| #[trigger]
        block_seen(t0, t1, size, b) && b >= OFFSET_LIMIT
}

/// Since `t0` the thread found that there is no node for `v`: it is too long, or there is no space.
pub open spec fn value_refused(t0: Seq<Event>, t1: Seq<Event>, v: Value) -> bool {
    v.store() > STORE_LIMIT || no_space(t0, t1, (NODE_HDR + v.size()) as u64)
}

/// What was found by then has been found since earlier.
pub proof fn lemma_no_space(
    t0: Seq<Event>,
    t1: Seq<Event>,
    t2: Seq<Event>,
    t3: Seq<Event>,
    size: u64,
)
    requires
        t0.len() <= t1.len(),
        extends(t2, t3),
    ensures
        no_space(t1, t2, size) ==> no_space(t0, t3, size),
{
    if full_seen(t1, t2, size) {
        lemma_full_seen(t0, t1, t2, t3, size);
    } else if no_space(t1, t2, size) {
        let b = choose|b: u64| #[trigger] block_seen(t1, t2, size, b) && b >= OFFSET_LIMIT;
        lemma_block_seen(t0, t1, t2, t3, size, b);
    }
}

pub proof fn lemma_value_refused(
    t0: Seq<Event>,
    t1: Seq<Event>,
    t2: Seq<Event>,
    t3: Seq<Event>,
    v: Value,
)
    requires
        t0.len() <= t1.len(),
        extends(t2, t3),
    ensures
        value_refused(t1, t2, v) ==> value_refused(t0, t3, v),
{
    lemma_no_space(t0, t1, t2, t3, (NODE_HDR + v.size()) as u64);
}

fn alloc_node<M: Memory>(mem: &mut M, size: u64) -> (off: Option<u64>)
    requires
        size % 8 == 0,
    ensures
        final(mem).patience() <= old(mem).patience(),
        released(old(mem).trace(), final(mem).trace()),
        off is None ==> final(mem).patience() == 0 || no_space(
            old(mem).trace(),
            final(mem).trace(),
            size,
        ),
        off matches Some(n) ==> n < OFFSET_LIMIT && block_seen(
            old(mem).trace(),
            final(mem).trace(),
            size,
            n,
        ) && block_given(old(mem).trace(), final(mem).trace(), size, n),
        builds(old(mem).trace(), final(mem).trace()),
        off is Some ==> uses_allocator(old(mem).trace(), final(mem).trace()),
        idle(old(mem).trace(), final(mem).trace()) || uses_allocator(
            old(mem).trace(),
            final(mem).trace(),
        ),
        final(mem).undisturbed() ==> old(mem).undisturbed() && (off, final(mem).words())
            == node_allocated(old(mem).words(), size),
{
    let block: Option<u64> = alloc_aligned(mem, size);
    proof {
        lemma_alloc_builds(old(mem).trace(), mem.trace());
    }
    match block {
        Some(off) => if off < OFFSET_LIMIT {
            Some(off)
        } else {
            None
        },
        None => None,
    }
}

/// The number of slots of a container that is created with `cap`.
pub open spec fn slots_for(cap: u32) -> u32 {
    if cap == 0 {
        DEFAULT_CAP
    } else {
        cap
    }
}

/// How many bytes a container takes up: one word for each slot of an array, two
/// for each slot of an object or a map.
pub open spec fn container_size(tag: u8, cap: u32) -> u64 {
    if tag == KIND_ARRAY {
        (NODE_HDR + 8 * slots_for(cap)) as u64
    } else {
        (NODE_HDR + 16 * slots_for(cap)) as u64
    }
}

/// What creating a container gives: its handle, and a header on new memory.
pub open spec fn with_container(ws: Seq<u64>, tag: u8, cap: u32) -> (Option<u64>, Seq<u64>) {
    let size = container_size(tag, cap);
    match node_allocated(ws, size) {
        (Some(off), w) => (
            Some(handle(tag, off)),
            node_init(w, off as int, tag, slots_for(cap), 0, lower(size)),
        ),
        (None, w) => (None, w),
    }
}

/// The thread ended by making the container of kind `tag` behind `h`, in a block of its own.
pub open spec fn container_seen(t0: Seq<Event>, t1: Seq<Event>, h: u64, tag: u8, cap: u32) -> bool {
    &&& kind_of(h) == tag
    &&& block_seen(t0, t1, container_size(tag, cap), off_of(h))
    &&& t1.len() >= 4
    &&& block_given(t0, t1.take(t1.len() - 4), container_size(tag, cap), off_of(h))
    &&& ends_with(
        t0,
        t1,
        header_stores(
            off_of(h) as int,
            tag,
            slots_for(cap),
            0,
            lower(container_size(tag, cap)),
        ),
    )
}

/// The writes that make a header stay in it.
proof fn lemma_header_fills(off: u64, tag: u8, cap: u32, store: u32, node_size: u32, n: u64)
    requires
        off < OFFSET_LIMIT,
        n >= NODE_HDR,
    ensures
        fills(header_stores(off as int, tag, cap, store, node_size), off, n),
{
    let w = header_stores(off as int, tag, cap, store, node_size);
    assert forall|j: int| 0 < j < w.len() implies #[trigger] goes_up(w, j) by {}
}

/// What making a container does.
proof fn lemma_container_made(
    t0: Seq<Event>,
    t1: Seq<Event>,
    t2: Seq<Event>,
    off: u64,
    tag: u8,
    cap: u32,
    size: u64,
)
    requires
        off < OFFSET_LIMIT,
        cap > 0,
        size == container_size(tag, cap),
        builds(t0, t1),
        block_seen(t0, t1, size, off),
        block_given(t0, t1, size, off),
        t2 == t1 + header_stores(off as int, tag, cap, 0, lower(size)),
    ensures
        container_seen(t0, t2, handle(tag, off), tag, cap),
        builds(t0, t2),
{
    lemma_handle(tag, off);
    let made = header_stores(off as int, tag, cap, 0, lower(size));
    lemma_header_fills(off, tag, cap, 0, lower(size), size);
    lemma_filled_builds(t0, t1, made, off, size);
    lemma_ends_with(t0, t1, made);
    assert(t2.take(t2.len() - 4) =~= t1);
    assert(t2.take(t1.len() as int) =~= t1);
    lemma_block_seen(t0, t0, t1, t2, size, off);
}

/// Creates a container of kind `tag`.
pub fn new_container<M: Memory>(mem: &mut M, tag: u8, cap: u32) -> (h: Option<u64>)
    ensures
        final(mem).patience() <= old(mem).patience(),
        h is None ==> final(mem).patience() == 0 || no_space(
            old(mem).trace(),
            final(mem).trace(),
            container_size(tag, cap),
        ),
        released(old(mem).trace(), final(mem).trace()),
        h matches Some(v) ==> container_seen(old(mem).trace(), final(mem).trace(), v, tag, cap),
        builds(old(mem).trace(), final(mem).trace()),
        final(mem).undisturbed() ==> old(mem).undisturbed() && (h, final(mem).words())
            == with_container(old(mem).words(), tag, cap),
{
    let cap: u32 = if cap == 0 {
        DEFAULT_CAP
    } else {
        cap
    };
    let slot_sz: u64 = if tag == KIND_ARRAY {
        8
    } else {
        16
    };
    let node_size: u64 = NODE_HDR + cap as u64 * slot_sz;
    match alloc_node(mem, node_size) {
        Some(off) => {
            let ghost t1 = mem.trace();
            init_node(mem, off, tag, cap, 0, lower_half(node_size));
            proof {
                lemma_container_made(old(mem).trace(), t1, mem.trace(), off, tag, cap, node_size);
            }
            Some(make_handle(tag, off))
        },
        None => None,
    }
}

/// `ws` with a node that holds `v` written at `off`.
pub open spec fn scalar_written(ws: Seq<u64>, off: int, v: Value) -> Seq<u64> {
    let size = v.size();
    put_all(
        node_init(
            ws,
            off,
            v.kind(),
            size as u32,
            v.store() as u32,
            lower((NODE_HDR + size) as u64),
        ),
        off + NODE_HDR,
        v.payload(),
    )
}

/// What creating a scalar node gives: its handle, and the value on new memory.
pub open spec fn with_scalar(ws: Seq<u64>, v: Value) -> (Option<u64>, Seq<u64>) {
    if v.store() > STORE_LIMIT {
        (None, ws)
    } else {
        match node_allocated(ws, (NODE_HDR + v.size()) as u64) {
            (Some(off), w) => (Some(handle(v.kind(), off)), scalar_written(w, off as int, v)),
            (None, w) => (None, w),
        }
    }
}

/// Writes the bytes of a string from `at` on.
fn write_bytes<M: Memory>(mem: &mut M, at: u64, bytes: &[u8])
    requires
        bytes@.len() <= 0xffff_ffff,
        at < OFFSET_LIMIT + NODE_HDR,
    ensures
        final(mem).words() == put_all(old(mem).words(), at as int, words_of(bytes@)),
        final(mem).patience() == old(mem).patience(),
        final(mem).undisturbed() == old(mem).undisturbed(),
        released(old(mem).trace(), final(mem).trace()),
        stores_within(
            old(mem).trace(),
            final(mem).trace(),
            at as int,
            at + 8 * words_of(bytes@).len(),
        ),
        final(mem).trace() == old(mem).trace() + stores(at as int, words_of(bytes@)),
        forall|t0: Seq<Event>, n: u64, hi: int, k: int| #[trigger]
            open_window(t0, old(mem).trace(), n, hi, k) && n + 16 < at && at + 8 * words_of(
                bytes@,
            ).len() <= hi ==> open_window(t0, final(mem).trace(), n, hi, k) && claimed(
                final(mem).trace(),
                k,
            ) == claimed(
                old(mem).trace(),
                k,
            ),
{
    let len: usize = bytes.len();
    let count: usize = if len % 8 == 0 {
        len / 8
    } else {
        len / 8 + 1
    };
    let ghost vals = words_of(bytes@);
    let mut i: usize = 0;
    proof {
        assert(vals.take(0) =~= Seq::<u64>::empty());
        assert(mem.trace() =~= mem.trace() + stores(at as int, vals.take(0)));
        lemma_stores_within_start(mem.trace(), at as int, at + 8 * vals.len());
    }
    while i < count
        invariant
            i <= count,
            count == vals.len(),
            vals == words_of(bytes@),
            bytes@.len() <= 0xffff_ffff,
            at < OFFSET_LIMIT + NODE_HDR,
            mem.words() == put_all(old(mem).words(), at as int, vals.take(i as int)),
            mem.patience() == old(mem).patience(),
            mem.undisturbed() == old(mem).undisturbed(),
            released(old(mem).trace(), mem.trace()),
            stores_within(old(mem).trace(), mem.trace(), at as int, at + 8 * vals.len()),
            mem.trace() == old(mem).trace() + stores(at as int, vals.take(i as int)),
            forall|t0: Seq<Event>, n: u64, hi: int, k: int| #[trigger]
                open_window(t0, old(mem).trace(), n, hi, k) && n + 16 < at && at + 8 * vals.len()
                    <= hi ==> open_window(t0, mem.trace(), n, hi, k) && claimed(mem.trace(), k)
                    == claimed(old(mem).trace(), k),
        decreases count - i,
    {
        let w: u64 = pack_word(bytes, i);
        let ghost t = mem.trace();
        let here: u64 = at + 8 * i as u64;
        mem.store(here, w);
        proof {
            let end = at + 8 * vals.len();
            lemma_stores_within_push(old(mem).trace(), t, here, w, at as int, end);
            assert(vals.take(i + 1).drop_last() =~= vals.take(i as int));
            assert(mem.trace() =~= old(mem).trace() + stores(at as int, vals.take(i + 1)));
        }
        i = i + 1;
    }
    assert(vals.take(count as int) =~= vals);
}

/// The writes that make a scalar fill the block that it takes up.
proof fn lemma_node_fills(off: u64, v: Value)
    requires
        off < OFFSET_LIMIT,
        !v.is_container(),
        v.store() <= STORE_LIMIT,
    ensures
        fills(node_stores(off as int, v), off, (NODE_HDR + v.size()) as u64),
{
    let w = node_stores(off as int, v);
    let size = lower((NODE_HDR + v.size()) as u64);
    let head = header_stores(off as int, v.kind(), v.size() as u32, v.store() as u32, size);
    let tail = stores(off + NODE_HDR, v.payload());
    lemma_payload_len(v);
    lemma_halves(v.kind() as u32, size);
    assert(w == head + tail);
    assert(w[0] == head[0]);
    assert forall|j: int| 0 <= j < w.len() implies in_block(
        #[trigger] w[j],
        off,
        (NODE_HDR + v.size()) as u64,
    ) by {
        if j < 4 {
            assert(w[j] == head[j]);
        } else {
            assert(w[j] == tail[j - 4]);
        }
    }
    assert forall|j: int| 0 < j < w.len() implies #[trigger] goes_up(w, j) by {
        assert(j < 4 ==> w[j] == head[j] && w[j - 1] == head[j - 1]);
        assert(j >= 4 ==> w[j] == tail[j - 4]);
        assert(j == 4 ==> w[j - 1] == head[3]);
        assert(j > 4 ==> w[j - 1] == tail[j - 5]);
    }
    assert forall|j: int, o: u64|
        0 <= j < w.len() && #[trigger] writes(w[j], o) implies (o - off) % 8 == 0 && (o >= off
        + 32 ==> o >= off + NODE_HDR && j > 0 && tags_scalar(w[0], off)) by {
        assert(j < 4 ==> w[j] == head[j]);
        assert(j >= 4 ==> w[j] == tail[j - 4]);
    }
}

/// Creates a node that holds `s`.
pub fn new_scalar_node<M: Memory>(mem: &mut M, s: &Scalar) -> (h: Option<u64>)
    ensures
        final(mem).patience() <= old(mem).patience(),
        h is None ==> final(mem).patience() == 0 || value_refused(
            old(mem).trace(),
            final(mem).trace(),
            s@,
        ),
        released(old(mem).trace(), final(mem).trace()),
        h matches Some(v) ==> node_made(old(mem).trace(), final(mem).trace(), v, s@) && (
        free_found(final(mem).trace()) || made_at(
            final(mem).trace(),
            v,
            s@,
            final(mem).trace().len() as int,
        )),
        builds(old(mem).trace(), final(mem).trace()),
        h is Some ==> uses_allocator(old(mem).trace(), final(mem).trace()),
        idle(old(mem).trace(), final(mem).trace()) || uses_allocator(
            old(mem).trace(),
            final(mem).trace(),
        ),
        final(mem).undisturbed() ==> old(mem).undisturbed() && (h, final(mem).words())
            == with_scalar(old(mem).words(), s@),
        final(mem).undisturbed() && wf(old(mem).words()) ==> kept(
            old(mem).words(),
            final(mem).words(),
        ),
{
    proof {
        lemma_reads_only_idle(mem.trace(), mem.trace());
        lemma_idle_builds(mem.trace(), mem.trace());
        if wf(mem.words()) {
            lemma_with_scalar(mem.words(), s@);
        }
    }
    let store: u64 = match s {
        Scalar::Null | Scalar::Bool(_) | Scalar::Int(_) | Scalar::Float(_) => 8,
        Scalar::BigInt(_) => 16,
        Scalar::Str(st) => st.as_str().as_bytes().len() as u64,
    };
    if store > STORE_LIMIT {
        return None;
    }
    let size: u64 = s.size();
    let node_size: u64 = NODE_HDR + size;
    match alloc_node(mem, node_size) {
        Some(off) => {
            let ghost t1 = mem.trace();
            init_node(mem, off, s.kind(), size as u32, store as u32, lower_half(node_size));
            let ghost t2 = mem.trace();
            write_payload(mem, off, s);
            proof {
                let t0 = old(mem).trace();
                let t3 = mem.trace();
                let w = node_stores(off as int, s@);
                lemma_extends_join(t1, t2, t3);
                lemma_node_fills(off, s@);
                lemma_filled_builds(t0, t1, w, off, node_size);
                lemma_uses_allocator(old(mem).trace(), old(mem).trace(), t1, mem.trace());
                lemma_handle(s@.kind(), off);
                lemma_ends_with(t0, t1, node_stores(off as int, s@));
                assert(t3 =~= t1 + node_stores(off as int, s@));
                lemma_block_seen(t0, t0, t1, t3, node_size, off);
                assert(own_block(t0, t3, off));
                assert(t3.take(t3.len() - w.len()) =~= t1);
                lemma_node_made(t0, t3, handle(s@.kind(), off), s@);
            }
            Some(make_handle(s.kind(), off))
        },
        None => None,
    }
}

/// The node at `n` has room for `v`, as far as the thread has seen. (Every scalar but a text has
/// room for one word.)
pub open spec fn roomy(t: Seq<Event>, n: u64, v: Value) -> bool {
    !(v is Str) && v.payload().len() <= 1 || exists|j: int|
        0 <= j < t.len() && #[trigger] loads(t, j, n + 8) && 8 * v.payload().len() <= aligned(
            lower(seen(t, j)) as int,
        ) && (v is Str ==> v.store() <= lower(seen(t, j)))
}

/// Where `v` ends, on the node at `n`.
pub open spec fn payload_end(n: u64, v: Value) -> int {
    n + NODE_HDR + 8 * v.payload().len()
}

/// Writes the payload of the node at `off`.
fn write_payload<M: Memory>(mem: &mut M, off: u64, s: &Scalar)
    requires
        off < OFFSET_LIMIT,
        s@.store() <= 0xffff_ffff,
    ensures
        final(mem).words() == put_all(old(mem).words(), off + NODE_HDR, s@.payload()),
        final(mem).patience() == old(mem).patience(),
        final(mem).undisturbed() == old(mem).undisturbed(),
        released(old(mem).trace(), final(mem).trace()),
        stores_within(
            old(mem).trace(),
            final(mem).trace(),
            off + NODE_HDR,
            off + NODE_HDR + 8 * s@.payload().len(),
        ),
        final(mem).trace() == old(mem).trace() + stores(off + NODE_HDR, s@.payload()),
        forall|t0: Seq<Event>, hi: int, k: int| #[trigger]
            open_window(t0, old(mem).trace(), off, hi, k) && payload_end(off, s@) <= hi
                ==> open_window(t0, final(mem).trace(), off, hi, k) && claimed(
                final(mem).trace(),
                k,
            ) == claimed(old(mem).trace(), k),
{
    broadcast use crate::trace::group_stores_within;

    let at: u64 = off + NODE_HDR;
    proof {
        reveal_with_fuel(put_all, 3);
    }
    match s {
        Scalar::Null => {
            mem.store(at, 0);
            assert(s@.payload().drop_last() =~= Seq::<u64>::empty());
        },
        Scalar::Bool(b) => {
            mem.store(at, *b as u64);
            assert(s@.payload().drop_last() =~= Seq::<u64>::empty());
        },
        Scalar::Int(v) => {
            mem.store(at, *v as u64);
            assert(s@.payload().drop_last() =~= Seq::<u64>::empty());
        },
        Scalar::Float(bits) => {
            mem.store(at, *bits);
            assert(s@.payload().drop_last() =~= Seq::<u64>::empty());
        },
        Scalar::BigInt(v) => {
            mem.store(at, *v as u64);
            mem.store(at + 8, (*v >> 64) as u64);
            assert(s@.payload().drop_last() =~= seq![*v as u64]);
            assert(s@.payload().drop_last().drop_last() =~= Seq::<u64>::empty());
        },
        Scalar::Str(st) => {
            write_bytes(mem, at, st.as_str().as_bytes());
        },
    }
    assert(mem.trace() =~= old(mem).trace() + stores(at as int, s@.payload()));
}

// Windows.

/// A writer can claim the version of the node at `n`.
pub open spec fn unlocked(ws: Seq<u64>, n: int) -> bool {
    in_words(ws, n + 16) && !odd(node_header(ws, n).seqlock)
}

/// Claims the version of the node at `n`; gives the version it had. Nothing if
/// another writer did not release it.
pub fn claim<M: Memory>(mem: &mut M, n: u64) -> (seq: Option<u64>)
    requires
        n < OFFSET_LIMIT,
    ensures
        final(mem).patience() <= old(mem).patience(),
        seq is None ==> {
            &&& final(mem).patience() == 0
            &&& final(mem).words() == old(mem).words()
            &&& idle(old(mem).trace(), final(mem).trace())
            &&& released(old(mem).trace(), final(mem).trace())
        },
        seq matches Some(s) ==> {
            let k = final(mem).trace().len() - 1;
            &&& k >= 0
            &&& s % 2 == 0
            &&& final(mem).words() == put(old(mem).words(), n + 16, (s + 1) as u64)
            &&& forall|hi: int| #[trigger]
                open_window(old(mem).trace(), final(mem).trace(), n, hi, k)
            &&& final(mem).trace().last() == (Event::Cas {
                off: seq_off(n),
                current: s,
                new: (s + 1) as u64,
                done: true,
            })
            &&& claimed(final(mem).trace(), k) == s
            &&& idle(old(mem).trace(), final(mem).trace().drop_last())
            &&& released_but(old(mem).trace(), final(mem).trace(), seq_off(n))
        },
        final(mem).undisturbed() ==> old(mem).undisturbed() && seq == if unlocked(
            old(mem).words(),
            n as int,
        ) {
            Some(node_header(old(mem).words(), n as int).seqlock)
        } else {
            None
        },
{
    proof {
        lemma_reads_only_idle(mem.trace(), mem.trace());
    }
    loop
        invariant
            n < OFFSET_LIMIT,
            mem.words() == old(mem).words(),
            mem.patience() <= old(mem).patience(),
            mem.undisturbed() ==> old(mem).undisturbed(),
            idle(old(mem).trace(), mem.trace()),
            released(old(mem).trace(), mem.trace()),
        decreases mem.patience(),
    {
        let ghost t0 = mem.trace();
        let s: u64 = mem.load(n + 16);
        let ghost t1 = mem.trace();
        proof {
            lemma_idle_push(old(mem).trace(), t0, t1.last());
        }
        if !seq_is_odd(s) {
            let done: bool = mem.cas(n + 16, s, s + 1);
            if done {
                proof {
                    assert(mem.trace().drop_last() =~= t1);
                    assert forall|hi: int| #[trigger]
                        open_window(
                            old(mem).trace(),
                            mem.trace(),
                            n,
                            hi,
                            mem.trace().len() - 1,
                        ) by {
                        lemma_open_window_start(old(mem).trace(), mem.trace(), n, hi);
                    }
                }
                return Some(s);
            }
            proof {
                lemma_idle_push(old(mem).trace(), t1, mem.trace().last());
            }
        }
        if !mem.pause() {
            return None;
        }
    }
}

/// Claims the version of the node at `n` if it is still `seq`.
pub fn claim_at<M: Memory>(mem: &mut M, n: u64, seq: u64) -> (done: bool)
    requires
        n < OFFSET_LIMIT,
        seq % 2 == 0,
    ensures
        final(mem).patience() == old(mem).patience(),
        final(mem).trace() == old(mem).trace().push(
            Event::Cas { off: seq_off(n), current: seq, new: (seq + 1) as u64, done },
        ),
        !done ==> {
            &&& final(mem).words() == old(mem).words()
            &&& idle(old(mem).trace(), final(mem).trace())
            &&& released(old(mem).trace(), final(mem).trace())
        },
        done ==> {
            let k = final(mem).trace().len() - 1;
            &&& final(mem).words() == put(old(mem).words(), n + 16, (seq + 1) as u64)
            &&& forall|hi: int| #[trigger]
                open_window(old(mem).trace(), final(mem).trace(), n, hi, k)
            &&& claimed(final(mem).trace(), k) == seq
            &&& released_but(old(mem).trace(), final(mem).trace(), seq_off(n))
        },
        final(mem).undisturbed() ==> old(mem).undisturbed() && done == (in_words(
            old(mem).words(),
            n + 16,
        ) && node_header(old(mem).words(), n as int).seqlock == seq),
{
    let done: bool = mem.cas(n + 16, seq, seq + 1);
    proof {
        let t = old(mem).trace();
        lemma_reads_only_idle(t, t);
        assert(mem.trace().drop_last() =~= t);
        if done {
            assert forall|hi: int| #[trigger]
                open_window(t, mem.trace(), n, hi, mem.trace().len() - 1) by {
                lemma_open_window_start(t, mem.trace(), n, hi);
            }
        } else {
            lemma_idle_push(t, t, mem.trace().last());
        }
    }
    done
}

/// Releases the version of the node at `n`, which was claimed at `seq`.
pub fn commit<M: Memory>(mem: &mut M, n: u64, seq: u64)
    requires
        n < OFFSET_LIMIT,
    ensures
        final(mem).words() == put(old(mem).words(), n + 16, bumped(seq)),
        final(mem).patience() == old(mem).patience(),
        final(mem).trace() == old(mem).trace().push(
            Event::Store { off: seq_off(n), val: bumped(seq) },
        ),
        final(mem).undisturbed() == old(mem).undisturbed(),
        forall|t0: Seq<Event>| #[trigger]
            released_but(t0, old(mem).trace(), seq_off(n)) ==> released(t0, final(mem).trace()),
        forall|t0: Seq<Event>, hi: int, k: int| #[trigger]
            open_window(t0, old(mem).trace(), n, hi, k) && claimed(old(mem).trace(), k) == seq
                ==> at_most_one_window(t0, final(mem).trace(), n, hi),
{
    mem.store(n + 16, seq.wrapping_add(2));
    proof {
        assert forall|t0: Seq<Event>, hi: int, k: int| #[trigger]
            open_window(t0, old(mem).trace(), n, hi, k) && claimed(old(mem).trace(), k)
                == seq implies at_most_one_window(t0, mem.trace(), n, hi) by {
            lemma_window_close(t0, old(mem).trace(), n, hi, k);
        }
    }
}

/// Reads the word at `off` under the version of the node at `n`. Nothing if a
/// writer did not release the version.
pub fn read_window_value<M: Memory>(mem: &mut M, n: u64, off: u64) -> (val: Option<u64>)
    requires
        n < OFFSET_LIMIT,
    ensures
        final(mem).words() == old(mem).words(),
        final(mem).patience() <= old(mem).patience(),
        reads_only(old(mem).trace(), final(mem).trace()),
        val is None ==> final(mem).patience() == 0,
        val matches Some(v) ==> {
            let t = final(mem).trace();
            &&& old(mem).trace().len() <= t.len() - 3
            &&& stable_from(t, n, t.len() - 3)
            &&& loads(t, t.len() - 2, off as int)
            &&& v == seen(t, t.len() - 2)
        },
        final(mem).undisturbed() ==> old(mem).undisturbed() && val == if odd(
            node_header(old(mem).words(), n as int).seqlock,
        ) {
            None
        } else {
            Some(word(old(mem).words(), off as int))
        },
{
    loop
        invariant
            n < OFFSET_LIMIT,
            mem.words() == old(mem).words(),
            mem.patience() <= old(mem).patience(),
            mem.undisturbed() ==> old(mem).undisturbed(),
            reads_only(old(mem).trace(), mem.trace()),
        decreases mem.patience(),
    {
        let s0: u64 = mem.load(n + 16);
        let ghost t0 = mem.trace();
        if !seq_is_odd(s0) {
            let v: u64 = mem.load(off);
            let ghost t1 = mem.trace();
            let s1: u64 = mem.load(n + 16);
            if s1 == s0 {
                proof {
                    lemma_stable(t0, t1, n, s0);
                }
                return Some(v);
            }
        }
        if !mem.pause() {
            return None;
        }
    }
}

/// The accesses from `k` on read two words of the payload of the node at `n`
/// under its version.
pub open spec fn pair_seen(t: Seq<Event>, n: u64, k: int) -> bool {
    &&& k + 3 == t.len() - 1
    &&& stable_from(t, n, k)
    &&& loads(t, k + 1, n + NODE_HDR)
    &&& loads(t, k + 2, n + NODE_HDR + 8)
}

/// Reads the first two payload words of the node at `n` under its version.
fn read_window_pair<M: Memory>(mem: &mut M, n: u64) -> (val: Option<(u64, u64)>)
    requires
        n < OFFSET_LIMIT,
    ensures
        final(mem).words() == old(mem).words(),
        final(mem).patience() <= old(mem).patience(),
        reads_only(old(mem).trace(), final(mem).trace()),
        val is None ==> final(mem).patience() == 0,
        val matches Some(v) ==> {
            let t = final(mem).trace();
            &&& old(mem).trace().len() <= t.len() - 4
            &&& pair_seen(t, n, t.len() - 4)
            &&& v == (seen(t, t.len() - 3), seen(t, t.len() - 2))
        },
        final(mem).undisturbed() ==> old(mem).undisturbed() && val == if odd(
            node_header(old(mem).words(), n as int).seqlock,
        ) {
            None
        } else {
            Some(
                (
                    word(old(mem).words(), n + NODE_HDR),
                    word(old(mem).words(), n + NODE_HDR + 8),
                ),
            )
        },
{
    loop
        invariant
            n < OFFSET_LIMIT,
            mem.words() == old(mem).words(),
            mem.patience() <= old(mem).patience(),
            mem.undisturbed() ==> old(mem).undisturbed(),
            reads_only(old(mem).trace(), mem.trace()),
        decreases mem.patience(),
    {
        let s0: u64 = mem.load(n + 16);
        let ghost t0 = mem.trace();
        if !seq_is_odd(s0) {
            let lo: u64 = mem.load(n + NODE_HDR);
            let hi: u64 = mem.load(n + NODE_HDR + 8);
            let ghost t1 = mem.trace();
            let s1: u64 = mem.load(n + 16);
            if s1 == s0 {
                proof {
                    assert(reads_only(t0, t1));
                    lemma_stable(t0, t1, n, s0);
                }
                return Some((lo, hi));
            }
        }
        if !mem.pause() {
            return None;
        }
    }
}

/// The `len` bytes from `at` on.
pub open spec fn bytes_at(ws: Seq<u64>, at: int, len: nat) -> Seq<u8> {
    Seq::new(len, |j: int| byte_of(word(ws, at + 8 * (j / 8)) as nat, (j % 8) as nat))
}

/// The bytes of the string node at `n`.
pub open spec fn str_bytes(ws: Seq<u64>, n: int) -> Seq<u8> {
    bytes_at(ws, n + NODE_HDR, node_header(ws, n).store as nat)
}

/// The bytes that the accesses from `k` on found in words one after the other.
pub open spec fn bytes_seen(t: Seq<Event>, k: int, len: nat) -> Seq<u8> {
    Seq::new(len, |j: int| byte_of(seen(t, k + j / 8) as nat, (j % 8) as nat))
}

/// The accesses from `k` on, `count` of them, read the words from `at` on.
pub open spec fn run_of_loads(t: Seq<Event>, k: int, at: int, count: int) -> bool {
    forall|i: int| 0 <= i < count ==> #[trigger] loads(t, k + i, at + 8 * i)
}

/// Reads `len` bytes from `at` on.
pub fn read_bytes<M: Memory>(mem: &mut M, at: u64, len: u32) -> (out: Vec<u8>)
    requires
        at < OFFSET_LIMIT + NODE_HDR,
    ensures
        final(mem).words() == old(mem).words(),
        final(mem).patience() == old(mem).patience(),
        reads_only(old(mem).trace(), final(mem).trace()),
        out@.len() == len,
        final(mem).trace().len() == old(mem).trace().len() + (len + 7) / 8,
        run_of_loads(
            final(mem).trace(),
            old(mem).trace().len() as int,
            at as int,
            (len + 7) / 8,
        ),
        out@ == bytes_seen(final(mem).trace(), old(mem).trace().len() as int, len as nat),
        forall|m: Seq<u64>| #[trigger]
            agrees(old(mem).trace(), final(mem).trace(), m) ==> out@ == bytes_at(
                m,
                at as int,
                len as nat,
            ),
        final(mem).undisturbed() ==> old(mem).undisturbed() && out@ == bytes_at(
            old(mem).words(),
            at as int,
            len as nat,
        ),
{
    let mut out: Vec<u8> = Vec::new();
    let ghost start = mem.trace().len() as int;
    let mut i: u32 = 0;
    let mut left: u32 = len;
    while left > 0
        invariant
            at < OFFSET_LIMIT + NODE_HDR,
            left <= len,
            8 * i >= len - left,
            left > 0 ==> 8 * i == len - left,
            left == 0 ==> i == (len + 7) / 8,
            start == old(mem).trace().len(),
            mem.words() == old(mem).words(),
            mem.patience() == old(mem).patience(),
            reads_only(old(mem).trace(), mem.trace()),
            mem.trace().len() == start + i,
            run_of_loads(mem.trace(), start, at as int, i as int),
            out@ == bytes_seen(mem.trace(), start, (len - left) as nat),
            mem.undisturbed() ==> old(mem).undisturbed() && out@ == bytes_at(
                old(mem).words(),
                at as int,
                (len - left) as nat,
            ),
        decreases left,
    {
        let ghost t0 = mem.trace();
        let w: u64 = mem.load(at + 8 * i as u64);
        let n: usize = if left < 8 {
            left as usize
        } else {
            8
        };
        let ghost before = out@;
        unpack_word(&mut out, w, n);
        proof {
            let t1 = mem.trace();
            assert forall|j: int| 0 <= j < i + 1 implies #[trigger] loads(
                t1,
                start + j,
                at + 8 * j,
            ) by {
                if j < i {
                    assert(loads(t0, start + j, at + 8 * j));
                }
            }
            let done = (len - left + n) as nat;
            assert(out@ =~= bytes_seen(t1, start, done)) by {
                assert forall|j: int| 0 <= j < done implies out@[j] == bytes_seen(
                    t1,
                    start,
                    done,
                )[j] by {
                    if j < len - left {
                        assert(before[j] == bytes_seen(t0, start, (len - left) as nat)[j]);
                        assert(loads(t0, start + j / 8, at + 8 * (j / 8)));
                    } else {
                        assert(j / 8 == i);
                        assert(j % 8 == j - (len - left));
                    }
                }
            }
            if mem.undisturbed() {
                assert(out@ =~= bytes_at(old(mem).words(), at as int, done)) by {
                    assert forall|j: int| 0 <= j < done implies out@[j] == bytes_at(
                        old(mem).words(),
                        at as int,
                        done,
                    )[j] by {
                        if j < len - left {
                            assert(before[j] == bytes_at(
                                old(mem).words(),
                                at as int,
                                (len - left) as nat,
                            )[j]);
                        } else {
                            assert(j / 8 == i);
                            assert(j % 8 == j - (len - left));
                        }
                    }
                }
            }
        }
        i = i + 1;
        left = left - n as u32;
    }
    assert(out@ =~= bytes_at(mem.words(), at as int, 0) || len > 0);
    proof {
        let t = mem.trace();
        assert forall|m: Seq<u64>| #[trigger] agrees(old(mem).trace(), t, m) implies out@
            == bytes_at(m, at as int, len as nat) by {
            assert(out@ =~= bytes_at(m, at as int, len as nat)) by {
                assert forall|j: int| 0 <= j < len implies out@[j] == bytes_at(
                    m,
                    at as int,
                    len as nat,
                )[j] by {
                    assert(loads(t, start + j / 8, at + 8 * (j / 8)));
                    assert(answered(m, t[start + j / 8]));
                }
            }
        }
    }
    out
}

/// The accesses from `k` on read the string of the node at `n` under its version.
pub open spec fn str_seen(t: Seq<Event>, n: u64, k: int) -> bool {
    let len = upper(seen(t, k + 1));
    &&& k + 2 + (len + 7) / 8 == t.len() - 1
    &&& stable_from(t, n, k)
    &&& loads(t, k + 1, n + 8)
    &&& run_of_loads(t, k + 2, n + NODE_HDR, (len + 7) / 8)
}

/// Between `t0` and `t1` the string of the node at `n` was read under its
/// version, and was `bytes`.
pub open spec fn str_read(t0: Seq<Event>, t1: Seq<Event>, n: u64, bytes: Seq<u8>) -> bool {
    exists|k: int|
        t0.len() <= k && #[trigger] str_seen(t1, n, k) && bytes == bytes_seen(
            t1,
            k + 2,
            upper(seen(t1, k + 1)) as nat,
        )
}

/// Reads the bytes of the string node at `n` under its version.
fn read_window_bytes<M: Memory>(mem: &mut M, n: u64) -> (val: Option<Vec<u8>>)
    requires
        n < OFFSET_LIMIT,
    ensures
        final(mem).words() == old(mem).words(),
        final(mem).patience() <= old(mem).patience(),
        reads_only(old(mem).trace(), final(mem).trace()),
        val is None ==> final(mem).patience() == 0,
        val matches Some(v) ==> str_read(old(mem).trace(), final(mem).trace(), n, v@),
        final(mem).undisturbed() ==> {
            &&& old(mem).undisturbed()
            &&& val is Some == !odd(node_header(old(mem).words(), n as int).seqlock)
            &&& val matches Some(v) ==> v@ == str_bytes(old(mem).words(), n as int)
        },
{
    loop
        invariant
            n < OFFSET_LIMIT,
            mem.words() == old(mem).words(),
            mem.patience() <= old(mem).patience(),
            mem.undisturbed() ==> old(mem).undisturbed(),
            reads_only(old(mem).trace(), mem.trace()),
        decreases mem.patience(),
    {
        let s0: u64 = mem.load(n + 16);
        let ghost t0 = mem.trace();
        if !seq_is_odd(s0) {
            let sizes: u64 = mem.load(n + 8);
            let ghost t1 = mem.trace();
            let len: u32 = upper_half(sizes);
            let out: Vec<u8> = read_bytes(mem, n + NODE_HDR, len);
            let ghost t2 = mem.trace();
            assert(reads_only(t0, t1));
            assert(reads_only(old(mem).trace(), t1));
            let s1: u64 = mem.load(n + 16);
            if s1 == s0 {
                proof {
                    lemma_stable(t0, t2, n, s0);
                    let t3 = mem.trace();
                    let k = t0.len() - 1;
                    assert(t2.take(t1.len() as int)[k + 1] == t1[k + 1]);
                    assert(seen(t3, k + 1) == sizes);
                    assert forall|i: int| 0 <= i < (len + 7) / 8 implies #[trigger] loads(
                        t3,
                        k + 2 + i,
                        n + NODE_HDR + 8 * i,
                    ) by {
                        assert(loads(t2, t1.len() + i, n + NODE_HDR + 8 * i));
                    }
                    assert(bytes_seen(t3, k + 2, len as nat) =~= bytes_seen(
                        t2,
                        t1.len() as int,
                        len as nat,
                    ));
                    assert(str_seen(t3, n, k));
                }
                return Some(out);
            }
        }
        if !mem.pause() {
            return None;
        }
    }
}

/// The name of what `String::from_utf8_lossy` makes of bytes that are not UTF-8.
pub uninterp spec fn replaced_utf8(bytes: Seq<u8>) -> Seq<char>;

/// The text of the bytes of a string.
pub open spec fn text_of(bytes: Seq<u8>) -> Seq<char> {
    if valid_utf8(bytes) {
        decode_utf8(bytes)
    } else {
        replaced_utf8(bytes)
    }
}

/// `String::from_utf8_lossy`: UTF-8 is decoded as it is; other bytes give a text
/// that depends on the bytes alone, in which whatever is not UTF-8 has been
/// replaced. How it is replaced is not stated.
#[verifier::external_body]
pub(crate) fn lossy_string(bytes: &Vec<u8>) -> (s: String)
    ensures
        valid_utf8(bytes@) ==> s@ == decode_utf8(bytes@),
        !valid_utf8(bytes@) ==> s@ == replaced_utf8(bytes@),
{
    String::from_utf8_lossy(bytes).into_owned()
}

/// The value that the handle `h` leads to.
pub open spec fn value_at(ws: Seq<u64>, h: u64) -> Value {
    let n = off_of(h) as int;
    let first = word(ws, n + NODE_HDR);
    if h == H_INVALID {
        Value::Null
    } else if kind_of(h) == KIND_OBJECT {
        Value::Object(h)
    } else if kind_of(h) == KIND_ARRAY {
        Value::Array(h)
    } else if kind_of(h) == KIND_MAP {
        Value::Mapping(h)
    } else if kind_of(h) == KIND_BOOL {
        Value::Bool(first != 0)
    } else if kind_of(h) == KIND_INT {
        Value::Int(first as i64)
    } else if kind_of(h) == KIND_F64 {
        Value::Float(first)
    } else if kind_of(h) == KIND_BIGINT {
        Value::BigInt(bigint(first, word(ws, n + NODE_HDR + 8)))
    } else if kind_of(h) == KIND_STR {
        Value::Str(text_of(str_bytes(ws, n)))
    } else {
        Value::Null
    }
}

/// The value behind `h` takes several words, and a writer holds its node.
pub open spec fn value_locked(ws: Seq<u64>, h: u64) -> bool {
    (kind_of(h) == KIND_BIGINT || kind_of(h) == KIND_STR) && odd(
        node_header(ws, off_of(h) as int).seqlock,
    )
}

/// What the thread has seen of the value `v` behind `h`: one word, or several
/// words under one version of their node.
pub open spec fn value_seen(t0: Seq<Event>, t1: Seq<Event>, h: u64, v: Value) -> bool {
    let n = off_of(h);
    let kind = kind_of(h);
    if h == H_INVALID {
        v == Value::Null
    } else if kind == KIND_OBJECT {
        v == Value::Object(h)
    } else if kind == KIND_ARRAY {
        v == Value::Array(h)
    } else if kind == KIND_MAP {
        v == Value::Mapping(h)
    } else if kind == KIND_BOOL || kind == KIND_INT || kind == KIND_F64 {
        let k = t1.len() - 1;
        &&& t0.len() <= k
        &&& loads(t1, k, n + NODE_HDR)
        &&& v == if kind == KIND_BOOL {
            Value::Bool(seen(t1, k) != 0)
        } else if kind == KIND_INT {
            Value::Int(seen(t1, k) as i64)
        } else {
            Value::Float(seen(t1, k))
        }
    } else if kind == KIND_BIGINT {
        let k = t1.len() - 4;
        &&& t0.len() <= k
        &&& pair_seen(t1, n, k)
        &&& v == Value::BigInt(bigint(seen(t1, k + 1), seen(t1, k + 2)))
    } else if kind == KIND_STR {
        exists|bytes: Seq<u8>| #[trigger]
            str_read(t0, t1, n, bytes) && v == Value::Str(text_of(bytes))
    } else {
        v == Value::Null
    }
}

/// Materializes the value behind `h`. Values of several words are read under the
/// version of their node.
pub fn handle_to_rval<M: Memory>(mem: &mut M, h: u64) -> (rv: Result<RVal, GraphError>)
    ensures
        final(mem).words() == old(mem).words(),
        final(mem).patience() <= old(mem).patience(),
        reads_only(old(mem).trace(), final(mem).trace()),
        rv matches Ok(v) ==> value_seen(old(mem).trace(), final(mem).trace(), h, v@),
        rv matches Err(e) ==> e == GraphError::Busy && final(mem).patience() == 0,
        final(mem).undisturbed() ==> {
            &&& old(mem).undisturbed()
            &&& rv is Ok == !value_locked(old(mem).words(), h)
            &&& rv matches Ok(v) ==> v@ == value_at(old(mem).words(), h)
        },
{
    if h == H_INVALID {
        return Ok(RVal::Null);
    }
    let kind: u8 = hkind(h);
    let n: u64 = hoff(h);
    if kind == KIND_OBJECT {
        Ok(RVal::Object(h))
    } else if kind == KIND_ARRAY {
        Ok(RVal::Array(h))
    } else if kind == KIND_MAP {
        Ok(RVal::Mapping(h))
    } else if kind == KIND_BOOL {
        let w: u64 = mem.load(n + NODE_HDR);
        Ok(RVal::Bool(w != 0))
    } else if kind == KIND_INT {
        let w: u64 = mem.load(n + NODE_HDR);
        Ok(RVal::Int(w as i64))
    } else if kind == KIND_F64 {
        let w: u64 = mem.load(n + NODE_HDR);
        Ok(RVal::Float(w))
    } else if kind == KIND_BIGINT {
        match read_window_pair(mem, n) {
            Some((lo, hi)) => Ok(RVal::BigInt((lo as i128) | ((hi as i128) << 64))),
            None => Err(GraphError::Busy),
        }
    } else if kind == KIND_STR {
        match read_window_bytes(mem, n) {
            Some(bytes) => {
                proof {
                    assert(str_read(old(mem).trace(), mem.trace(), n, bytes@));
                }
                Ok(RVal::Str(lossy_string(&bytes)))
            },
            None => Err(GraphError::Busy),
        }
    } else {
        Ok(RVal::Null)
    }
}

// Writing a scalar in place.

/// `ws` with the payload of the node at `n` replaced by that of `v`, in one window.
pub open spec fn rewritten(ws: Seq<u64>, n: int, v: Value) -> Seq<u64> {
    let hdr = node_header(ws, n);
    let w = put_all(ws, n + NODE_HDR, v.payload());
    let w = if v is Str {
        put(w, n + 8, halves(hdr.cap, v.store() as u32))
    } else {
        w
    };
    put(w, n + 16, bumped(hdr.seqlock))
}

/// Writes `s` onto the node at `n`, under its version, and gives the new version. Nothing if
/// another writer did not release it.
pub fn scalar_write_inplace<M: Memory>(mem: &mut M, n: u64, s: &Scalar) -> (version: Option<u64>)
    requires
        n < OFFSET_LIMIT,
        s@.store() <= 0xffff_ffff,
    ensures
        final(mem).patience() <= old(mem).patience(),
        released(old(mem).trace(), final(mem).trace()),
        at_most_one_window(old(mem).trace(), final(mem).trace(), n, payload_end(n, s@)),
        extends(old(mem).trace(), final(mem).trace()),
        version matches Some(v) ==> node_rewritten(
            old(mem).trace(),
            final(mem).trace(),
            n,
            s@,
        ) && final(mem).trace().last() == (Event::Store { off: seq_off(n), val: v }),
        version is None ==> final(mem).patience() == 0 && idle(
            old(mem).trace(),
            final(mem).trace(),
        ),
        final(mem).undisturbed() ==> {
            let ws = old(mem).words();
            &&& old(mem).undisturbed()
            &&& (version, final(mem).words()) == if unlocked(ws, n as int) {
                (Some(bumped(node_header(ws, n as int).seqlock)), rewritten(ws, n as int, s@))
            } else {
                (None, ws)
            }
        },
{
    broadcast use crate::trace::group_extends;

    let seq: u64 = match claim(mem, n) {
        Some(seq) => seq,
        None => {
            return None;
        },
    };
    let ghost k = mem.trace().len() - 1;
    let ghost t1 = mem.trace();
    let ghost w1 = mem.words();
    let ghost hi = payload_end(n, s@);
    assert(open_window(old(mem).trace(), t1, n, hi, k));
    write_payload(mem, n, s);
    assert(open_window(old(mem).trace(), mem.trace(), n, hi, k));
    let ghost mut found: u64 = 0;
    match s {
        Scalar::Str(st) => {
            let sizes: u64 = mem.load(n + 8);
            proof {
                found = sizes;
            }
            let len: u32 = st.as_str().as_bytes().len() as u32;
            let ghost t = mem.trace();
            assert(open_window(old(mem).trace(), t, n, hi, k));
            mem.store(n + 8, join_halves(lower_half(sizes), len));
        },
        _ => {},
    }
    let ghost t2 = mem.trace();
    assert(t2 =~= t1 + rewrite_accesses(n, s@, found));
    assert(open_window(old(mem).trace(), t2, n, hi, k));
    assert(released(t1, t2));
    assert(released_but(old(mem).trace(), t2, seq_off(n)));
    commit(mem, n, seq);
    proof {
        let t0 = old(mem).trace();
        let t3 = mem.trace();
        lemma_extends_push(t1, t2, t3.last());
        assert(t1.take(t0.len() as int) =~= t1.drop_last().take(t0.len() as int));
        lemma_extends_join(t0, t1, t3);
        assert(t3.take(t1.len() as int)[k] == t1[k]);
        lemma_ends_in_window(
            t0,
            t1.drop_last(),
            n,
            t1.last(),
            rewrite_accesses(n, s@, found),
        );
        assert(t1.drop_last().push(t1.last()) =~= t1);
        if mem.undisturbed() {
            let ws = old(mem).words();
            lemma_word_put_all(w1, n + NODE_HDR, s@.payload(), n + 8);
            lemma_word_put_all(ws, n + NODE_HDR, s@.payload(), n + 8);
            lemma_word_put(ws, n + 16, (seq + 1) as u64, n + 8);
            assert(mem.words() =~= rewritten(ws, n as int, s@)) by {
                assert forall|i: int| 0 <= i < ws.len() implies mem.words()[i] == rewritten(
                    ws,
                    n as int,
                    s@,
                )[i] by {
                    let a = 8 * i;
                    lemma_word_put_all(w1, n + NODE_HDR, s@.payload(), a);
                    lemma_word_put_all(ws, n + NODE_HDR, s@.payload(), a);
                    lemma_word_put(ws, n + 16, (seq + 1) as u64, a);
                    let x = rewritten(ws, n as int, s@);
                    assert(word(mem.words(), a) == word(x, a));
                    assert(word(mem.words(), a) == mem.words()[i]);
                    assert(word(x, a) == x[i]);
                }
            }
        }
    }
    Some(seq.wrapping_add(2))
}

/// The node behind `h` can take `v` in place of its value: it is of the same kind, and has room for
/// it. (Every node has room for one word.)
pub open spec fn reusable(ws: Seq<u64>, h: u64, v: Value) -> bool {
    kind_of(h) == v.kind() && (v is Str || v is BigInt ==> node_header(ws, off_of(h) as int).cap
        >= v.store())
}

/// Whether the node behind `h` can take `s` in place of its value.
pub fn scalar_reusable<M: Memory>(mem: &mut M, h: u64, s: &Scalar) -> (r: bool)
    ensures
        final(mem).words() == old(mem).words(),
        final(mem).patience() == old(mem).patience(),
        reads_only(old(mem).trace(), final(mem).trace()),
        r ==> s@.store() <= 0xffff_ffff,
        r ==> kind_of(h) == s@.kind(),
        r ==> roomy(final(mem).trace(), off_of(h), s@),
        forall|m: Seq<u64>| #[trigger] agrees(old(mem).trace(), final(mem).trace(), m) ==> r
            == reusable(m, h, s@),
        final(mem).undisturbed() ==> old(mem).undisturbed() && r == reusable(
            old(mem).words(),
            h,
            s@,
        ),
{
    let kind: u8 = hkind(h);
    if kind != s.kind() {
        return false;
    }
    match s {
        Scalar::Str(st) => {
            let cap: u32 = load_cap(mem, hoff(h));
            proof {
                lemma_room(mem.trace(), old(mem).trace().len() as int, off_of(h), cap, s@);
            }
            cap as u64 >= st.as_str().as_bytes().len() as u64
        },
        Scalar::BigInt(_) => {
            let cap: u32 = load_cap(mem, hoff(h));
            proof {
                lemma_room(mem.trace(), old(mem).trace().len() as int, off_of(h), cap, s@);
            }
            cap >= 16
        },
        _ => true,
    }
}

/// A node that has been seen to have room for a value has room for it.
proof fn lemma_room(t: Seq<Event>, j: int, n: u64, cap: u32, v: Value)
    requires
        0 <= j < t.len(),
        cap_seen(t, j, n, cap),
        !v.is_container(),
    ensures
        cap >= v.store() ==> roomy(t, n, v),
{
    if cap >= v.store() {
        assert(loads(t, j, n + 8));
        assert(8 * v.payload().len() <= aligned(lower(seen(t, j)) as int));
    }
}

// The counter.

/// The value after `v`.
pub open spec fn successor(v: i64) -> i64 {
    if v == i64::MAX {
        i64::MIN
    } else {
        (v + 1) as i64
    }
}

/// The counter of the node at `n`.
pub open spec fn counter_at(ws: Seq<u64>, n: int) -> i64 {
    word(ws, n + NODE_HDR) as i64
}

/// `ws` with the counter of the node at `n` one up, in one window.
pub open spec fn incremented(ws: Seq<u64>, n: int) -> Seq<u64> {
    let w = put(ws, n + NODE_HDR, successor(counter_at(ws, n)) as u64);
    put(w, n + 16, bumped(node_header(ws, n).seqlock))
}

/// The last accesses of `t` are one increment of the counter of the node at `n`:
/// its version is claimed, its value read, the next value `v` written, and the
/// version released.
pub open spec fn increment_seen(t: Seq<Event>, n: u64, v: i64) -> bool {
    let k = t.len() - 4;
    let at = (n + NODE_HDR) as u64;
    &&& k >= 0
    &&& t[k] matches Event::Cas { off, current, new, done } && off == seq_off(n) && current % 2
        == 0 && new == current + 1 && done
    &&& t[k + 1] matches Event::Load { off, val } && off == at && v == successor(val as i64)
    &&& t[k + 2] == (Event::Store { off: at, val: v as u64 })
    &&& t[k + 3] == (Event::Store { off: seq_off(n), val: bumped(t[k]->Cas_current) })
}

/// From `t0` to `t1` the thread incremented the counter of the node at `n`, to `v`. Before
/// that it changed nothing, unless it made a node.
pub open spec fn counted_once(t0: Seq<Event>, t1: Seq<Event>, n: u64, v: i64) -> bool {
    &&& extends(t0, t1)
    &&& increment_seen(t1, n, v)
    &&& idle(t0, t1.take(t1.len() - 4)) || uses_allocator(t0, t1)
}

/// From `t0` to `t1` the thread incremented one counter, to `v`.
pub open spec fn one_increment_seen(t0: Seq<Event>, t1: Seq<Event>, v: i64) -> bool {
    exists|n: u64| #[trigger] counted_once(t0, t1, n, v)
}

/// Increments the counter of the node at `n` under its version, and gives its
/// new value. Nothing if another writer did not release the version.
pub fn increment_node<M: Memory>(mem: &mut M, n: u64) -> (next: Option<i64>)
    requires
        n < OFFSET_LIMIT,
    ensures
        final(mem).patience() <= old(mem).patience(),
        released(old(mem).trace(), final(mem).trace()),
        at_most_one_window(old(mem).trace(), final(mem).trace(), n, n + NODE_HDR + 8),
        next is None ==> final(mem).patience() == 0 && idle(
            old(mem).trace(),
            final(mem).trace(),
        ),
        next matches Some(v) ==> increment_seen(final(mem).trace(), n, v),
        next is Some ==> idle(
            old(mem).trace(),
            final(mem).trace().take(final(mem).trace().len() - 4),
        ),
        extends(old(mem).trace(), final(mem).trace()),
        final(mem).undisturbed() ==> {
            let ws = old(mem).words();
            &&& old(mem).undisturbed()
            &&& next == if unlocked(ws, n as int) {
                Some(successor(counter_at(ws, n as int)))
            } else {
                None
            }
            &&& final(mem).words() == if unlocked(ws, n as int) {
                incremented(ws, n as int)
            } else {
                ws
            }
        },
{
    let seq: u64 = match claim(mem, n) {
        Some(seq) => seq,
        None => {
            return None;
        },
    };
    let ghost t1 = mem.trace();
    let ghost hi = n + NODE_HDR + 8;
    assert(open_window(old(mem).trace(), t1, n, hi, t1.len() - 1));
    let w: u64 = mem.load(n + NODE_HDR);
    let cur: i64 = w as i64;
    let next: i64 = if cur == i64::MAX {
        i64::MIN
    } else {
        cur + 1
    };
    mem.store(n + NODE_HDR, next as u64);
    let ghost t2 = mem.trace();
    assert(released_but(old(mem).trace(), t2, seq_off(n)));
    assert(open_window(old(mem).trace(), t2, n, hi, t1.len() - 1));
    commit(mem, n, seq);
    proof {
        let t = mem.trace();
        let k = t1.len() - 1;
        assert(mem.undisturbed() ==> mem.words() =~= incremented(old(mem).words(), n as int));
        assert(t.take(k) =~= t1.drop_last());
        assert(t.take(old(mem).trace().len() as int) =~= t.take(k).take(
            old(mem).trace().len() as int,
        ));
    }
    Some(next)
}

} // verus!
