//! Operations on the object graph.
//!
//! Objects and maps are tables of key and value slots, found by a scan; arrays
//! are slots found by index. A lookup reads under the version of the container.
//! A mutation claims that very version, so that it acts on what was looked up.
use crate::arena::{odd, seq_is_odd};
use crate::attempts::{claims_once, quiet};
use crate::discipline::{builds, known, lemma_known, reads_value, value_read};
use crate::layout::{
    cap_of, count_of, item_at, kept, key_at, lemma_node, lemma_not_locked, lemma_used_key,
    lemma_with_container, live, live_list, live_table, seq_of, val_at, wf,
};
use crate::memory::{Event, Memory};
use crate::node::{
    container_seen, container_size, load_cap, lossy_string, new_container, no_space, node_header,
    read_bytes, read_window_value, str_bytes, value_at, value_locked, value_seen, with_container,
};
use crate::record::{
    agrees, answered, emptied, item_word, lemma_agrees, linked, node_made, node_rewritten, slot_at,
    slot_known, table_full,
};
use crate::tables::{handle_for, has_key_at, item_for, keys_in, lemma_slot_from, slot_from, slot_of};
use crate::trace::{
    claimed, extends, idle, lemma_stable, loads, marks, reads_only, released, seen, seq_off,
    stable_from,
};
use crate::value::{kind_of, off_of, Value};
use crate::words::{lower, lower_half, upper, upper_half};
pub use crate::arrays::{delete_index, push, put_index};
pub use crate::counters::increment_counter;
pub use crate::mutation::{delete_key, put_key_handle, put_key_scalar, put_key_value, root_handle};
pub use crate::node::{handle_to_rval, new_scalar_node, NodeHeader, DEFAULT_CAP, NODE_HDR};
pub use crate::value::{
    hkind, hoff, is_container, is_scalar, make_handle, rval_to_scalar, GraphError, RVal, Scalar,
    H_INVALID, KIND_ARRAY, KIND_BIGINT, KIND_BOOL, KIND_F64, KIND_INT, KIND_MAP, KIND_NULL,
    KIND_OBJECT, KIND_STR, OFFSET_LIMIT,
};
use vstd::prelude::*;
use vstd::utf8::encode_utf8;

verus! {

broadcast use crate::trace::group_trace;

// Creating containers.

/// Creates an object with `cap` slots.
pub fn create_object<M: Memory>(mem: &mut M, cap: u32) -> (h: Option<u64>)
    ensures
        final(mem).patience() <= old(mem).patience(),
        released(old(mem).trace(), final(mem).trace()),
        builds(old(mem).trace(), final(mem).trace()),
        h matches Some(v) ==> container_seen(
            old(mem).trace(),
            final(mem).trace(),
            v,
            KIND_OBJECT,
            cap,
        ),
        h is None ==> final(mem).patience() == 0 || no_space(
            old(mem).trace(),
            final(mem).trace(),
            container_size(KIND_OBJECT, cap),
        ),
        final(mem).undisturbed() ==> old(mem).undisturbed() && (h, final(mem).words())
            == with_container(old(mem).words(), KIND_OBJECT, cap),
        final(mem).undisturbed() && wf(old(mem).words())
            ==> kept(old(mem).words(), final(mem).words()),
{
    proof {
        if wf(mem.words()) {
            lemma_with_container(mem.words(), KIND_OBJECT, cap);
        }
    }
    new_container(mem, KIND_OBJECT, cap)
}

/// Creates an array with `cap` slots.
pub fn create_array<M: Memory>(mem: &mut M, cap: u32) -> (h: Option<u64>)
    ensures
        final(mem).patience() <= old(mem).patience(),
        released(old(mem).trace(), final(mem).trace()),
        builds(old(mem).trace(), final(mem).trace()),
        h matches Some(v) ==> container_seen(
            old(mem).trace(),
            final(mem).trace(),
            v,
            KIND_ARRAY,
            cap,
        ),
        h is None ==> final(mem).patience() == 0 || no_space(
            old(mem).trace(),
            final(mem).trace(),
            container_size(KIND_ARRAY, cap),
        ),
        final(mem).undisturbed() ==> old(mem).undisturbed() && (h, final(mem).words())
            == with_container(old(mem).words(), KIND_ARRAY, cap),
        final(mem).undisturbed() && wf(old(mem).words())
            ==> kept(old(mem).words(), final(mem).words()),
{
    proof {
        if wf(mem.words()) {
            lemma_with_container(mem.words(), KIND_ARRAY, cap);
        }
    }
    new_container(mem, KIND_ARRAY, cap)
}

/// Creates a map with `cap` slots.
pub fn create_map<M: Memory>(mem: &mut M, cap: u32) -> (h: Option<u64>)
    ensures
        final(mem).patience() <= old(mem).patience(),
        released(old(mem).trace(), final(mem).trace()),
        builds(old(mem).trace(), final(mem).trace()),
        h matches Some(v) ==> container_seen(
            old(mem).trace(),
            final(mem).trace(),
            v,
            KIND_MAP,
            cap,
        ),
        h is None ==> final(mem).patience() == 0 || no_space(
            old(mem).trace(),
            final(mem).trace(),
            container_size(KIND_MAP, cap),
        ),
        final(mem).undisturbed() ==> old(mem).undisturbed() && (h, final(mem).words())
            == with_container(old(mem).words(), KIND_MAP, cap),
        final(mem).undisturbed() && wf(old(mem).words())
            ==> kept(old(mem).words(), final(mem).words()),
{
    proof {
        if wf(mem.words()) {
            lemma_with_container(mem.words(), KIND_MAP, cap);
        }
    }
    new_container(mem, KIND_MAP, cap)
}

// Looking up a key.

/// Access `j` has read how long the text of the node at `n` is, and the word at `off` is part of
/// it.
pub open spec fn text_word(t: Seq<Event>, n: u64, off: u64, j: int) -> bool {
    &&& 0 <= j < t.len()
    &&& loads(t, j, n + 8)
    &&& n + NODE_HDR <= off < n + NODE_HDR + upper(seen(t, j))
}

/// The word at `off` is the length of the text of the node at `n`, or a part of the text.
pub open spec fn of_text(t: Seq<Event>, n: u64, off: u64) -> bool {
    off == n + 8 || exists|j: int| #[trigger] text_word(t, n, off, j)
}

/// With access `j` the thread has read that slot `slot` of the object or map at `c` has the key
/// `k`.
pub open spec fn reads_key(t: Seq<Event>, c: u64, k: u64, slot: u32, j: int) -> bool {
    &&& 0 <= j < t.len()
    &&& loads(t, j, slot_at(c, slot))
    &&& seen(t, j) == k
    &&& known(t, c, slot)
    &&& k != H_INVALID
    &&& kind_of(k) == KIND_STR
}

/// The word at `off` is part of slot `slot` of the object or map at `c`.
pub open spec fn in_slot(t: Seq<Event>, c: u64, slot: u32, off: u64) -> bool {
    known(t, c, slot) && (off == slot_at(c, slot) || off == slot_at(c, slot) + 8)
}

/// After the accesses `t` the word at `off` is one that a lookup in the object or map at `c` looks
/// at: its capacity, its version, one of its slots, or a word of the text of one of its keys.
pub open spec fn looks_at(t: Seq<Event>, c: u64, off: u64) -> bool {
    ||| off == c + 8
    ||| off == c + 16
    ||| exists|slot: u32| #[trigger] in_slot(t, c, slot, off)
    ||| exists|k: u64, slot: u32, j: int| #[trigger]
        reads_key(t, c, k, slot, j) && of_text(t, off_of(k), off)
}

/// Since `t0` the thread looked at nothing else.
pub open spec fn looks_only(t0: Seq<Event>, t: Seq<Event>, c: u64) -> bool {
    forall|x: int|
        t0.len() <= x < t.len() ==> (#[trigger] t[x] matches Event::Load { off, .. } ==> looks_at(
            t.take(x),
            c,
            off,
        ))
}

proof fn lemma_looks_only(t0: Seq<Event>, t1: Seq<Event>, t2: Seq<Event>, c: u64)
    requires
        t0.len() <= t1.len(),
        extends(t1, t2),
        looks_only(t0, t1, c),
        looks_only(t1, t2, c),
    ensures
        looks_only(t0, t2, c),
{
    assert forall|x: int| t0.len() <= x < t2.len() implies (#[trigger] t2[x] matches Event::Load {
        off,
        ..
    } ==> looks_at(t2.take(x), c, off)) by {
        if x < t1.len() {
            assert(t2.take(t1.len() as int)[x] == t2[x]);
            assert(t2.take(x) =~= t1.take(x)) by {
                assert(t2.take(t1.len() as int).take(x) =~= t2.take(x));
            }
        }
    }
}

/// Compares the string at `s_off` with `q`.
fn str_eq<M: Memory>(mem: &mut M, s_off: u64, q: &[u8]) -> (r: bool)
    requires
        s_off < OFFSET_LIMIT,
    ensures
        final(mem).words() == old(mem).words(),
        final(mem).patience() == old(mem).patience(),
        reads_only(old(mem).trace(), final(mem).trace()),
        forall|x: int|
            old(mem).trace().len() <= x < final(mem).trace().len() ==> (
            #[trigger] final(mem).trace()[x] matches Event::Load { off, .. } ==> of_text(
                final(mem).trace().take(x),
                s_off,
                off,
            )),
        forall|m: Seq<u64>| #[trigger] agrees(old(mem).trace(), final(mem).trace(), m) ==> r == (
        str_bytes(m, s_off as int) == q@),
        final(mem).undisturbed() ==> old(mem).undisturbed() && r == (str_bytes(
            old(mem).words(),
            s_off as int,
        ) == q@),
{
    let sizes: u64 = mem.load(s_off + 8);
    let len: u32 = upper_half(sizes);
    let ghost t0 = old(mem).trace();
    let ghost t1 = mem.trace();
    proof {
        assert forall|m: Seq<u64>| #[trigger] agrees(t0, t1, m) implies len == node_header(
            m,
            s_off as int,
        ).store by {
            assert(answered(m, t1[t0.len() as int]));
        }
    }
    if len as u64 != q.len() as u64 {
        return false;
    }
    assert(reads_only(t0, t1));
    let bytes: Vec<u8> = read_bytes(mem, s_off + NODE_HDR, len);
    proof {
        assert forall|m: Seq<u64>| #[trigger] agrees(t0, mem.trace(), m) implies bytes@
            == str_bytes(m, s_off as int) by {
            lemma_agrees(t0, t1, mem.trace(), m);
        }
        let t2 = mem.trace();
        assert(t2.take(t1.len() as int)[t0.len() as int] == t1[t0.len() as int]);
        assert forall|x: int| t0.len() <= x < t2.len() implies (
        #[trigger] t2[x] matches Event::Load { off, .. } ==> of_text(t2.take(x), s_off, off)) by {
            if x >= t1.len() {
                let w = x - t1.len();
                let u = t2.take(x);
                assert(loads(t2, t1.len() + w, s_off + NODE_HDR + 8 * w));
                assert(loads(u, t0.len() as int, s_off + 8));
                assert(text_word(u, s_off, (s_off + NODE_HDR + 8 * w) as u64, t0.len() as int));
            }
        }
    }
    bytes_eq(&bytes, q)
}

/// Compares bytes.
fn bytes_eq(a: &Vec<u8>, b: &[u8]) -> (r: bool)
    ensures
        r == (a@ == b@),
{
    if a.len() != b.len() {
        return false;
    }
    let mut j: usize = 0;
    while j < b.len()
        invariant
            j <= b@.len(),
            a@.len() == b@.len(),
            forall|i: int| 0 <= i < j ==> a@[i] == b@[i],
        decreases b@.len() - j,
    {
        if a[j] != b[j] {
            return false;
        }
        j = j + 1;
    }
    assert(a@ =~= b@);
    true
}

/// The thread has read the handle `v` off slot `slot` of the object or map at `c`.
spec fn value_loaded(t: Seq<Event>, c: u64, slot: u32, v: u64) -> bool {
    exists|j: int|
        0 <= j < t.len() && #[trigger] loads(t, j, slot_at(c, slot) + 8) && seen(t, j) == v
}

/// Scans the slots of the object or map at `c` for `key`; gives the slot and its
/// value handle.
#[verifier::rlimit(50)]
fn scan_key<M: Memory>(mem: &mut M, c: u64, cap: u32, key: &[u8]) -> (found: Option<(u32, u64)>)
    requires
        c < OFFSET_LIMIT,
        forall|slot: u32| slot < cap ==> #[trigger] known(old(mem).trace(), c, slot),
    ensures
        looks_only(old(mem).trace(), final(mem).trace(), c),
        final(mem).words() == old(mem).words(),
        final(mem).patience() == old(mem).patience(),
        reads_only(old(mem).trace(), final(mem).trace()),
        found matches Some((i, _)) ==> i < cap,
        found matches Some((i, v)) ==> value_loaded(final(mem).trace(), c, i, v),
        forall|m: Seq<u64>| #[trigger]
            agrees(old(mem).trace(), final(mem).trace(), m) ==> match slot_from(
                m,
                c as int,
                key@,
                0,
                cap as int,
            ) {
                Some(i) => found matches Some((slot, v)) && slot == i && v == val_at(
                    m,
                    c as int,
                    i,
                ),
                None => found is None,
            },
        final(mem).undisturbed() ==> old(mem).undisturbed() && match slot_from(
            old(mem).words(),
            c as int,
            key@,
            0,
            cap as int,
        ) {
            Some(i) => found matches Some((slot, v)) && slot == i && v == val_at(
                old(mem).words(),
                c as int,
                i,
            ),
            None => found is None,
        },
{
    let mut i: u32 = 0;
    let ghost t0 = mem.trace();
    while i < cap
        invariant
            c < OFFSET_LIMIT,
            i <= cap,
            t0 == old(mem).trace(),
            forall|slot: u32| slot < cap ==> #[trigger] known(t0, c, slot),
            looks_only(t0, mem.trace(), c),
            forall|m: Seq<u64>| #[trigger]
                agrees(t0, mem.trace(), m) ==> slot_from(m, c as int, key@, 0, cap as int)
                    == slot_from(m, c as int, key@, i as int, cap as int),
            mem.words() == old(mem).words(),
            mem.patience() == old(mem).patience(),
            reads_only(old(mem).trace(), mem.trace()),
            mem.undisturbed() ==> old(mem).undisturbed() && slot_from(
                old(mem).words(),
                c as int,
                key@,
                0,
                cap as int,
            ) == slot_from(old(mem).words(), c as int, key@, i as int, cap as int),
        decreases cap - i,
    {
        let ghost t1 = mem.trace();
        let k: u64 = mem.load(c + NODE_HDR + 16 * i as u64);
        let v: u64 = mem.load(c + NODE_HDR + 16 * i as u64 + 8);
        let ghost t2 = mem.trace();
        proof {
            assert(reads_only(t0, t2));
            assert(t2.take(t1.len() as int) =~= t1);
            assert(known(t0, c, i));
            lemma_known(t0, t2, c, i);
            assert(loads(t2, t1.len() as int, slot_at(c, i)));
            lemma_known(t0, t1, c, i);
            let tk = t2.take(t1.len() as int + 1);
            assert(tk.take(t1.len() as int) =~= t1);
            lemma_known(t1, tk, c, i);
            assert(in_slot(t1, c, i, slot_at(c, i) as u64));
            assert(in_slot(tk, c, i, (slot_at(c, i) + 8) as u64));
            assert(looks_only(t1, t2, c));
            lemma_looks_only(t0, t1, t2, c);
            assert forall|m: Seq<u64>| #[trigger] agrees(t0, t2, m) implies agrees(t0, t1, m)
                && k == key_at(m, c as int, i as int) && v == val_at(m, c as int, i as int) by {
                lemma_agrees(t0, t1, t2, m);
                assert(answered(m, t2[t1.len() as int]));
                assert(answered(m, t2[t1.len() as int + 1]));
            }
        }
        if k != H_INVALID && hkind(k) == KIND_STR {
            let same: bool = str_eq(mem, hoff(k), key);
            proof {
                let t3 = mem.trace();
                lemma_known(t2, t3, c, i);
                assert(t3.take(t2.len() as int)[t1.len() as int] == t2[t1.len() as int]);
                assert(loads(t3, t1.len() as int, slot_at(c, i)));
                assert forall|x: int| t2.len() <= x < t3.len() implies (
                #[trigger] t3[x] matches Event::Load { off, .. } ==> looks_at(
                    t3.take(x),
                    c,
                    off,
                )) by {
                    let u = t3.take(x);
                    assert(u.take(t2.len() as int) =~= t2) by {
                        assert(t3.take(t2.len() as int) =~= t2);
                    }
                    lemma_known(t2, u, c, i);
                    assert(loads(u, t1.len() as int, slot_at(c, i)));
                    assert(reads_key(u, c, k, i, t1.len() as int));
                }
                assert(looks_only(t2, t3, c));
                lemma_looks_only(t0, t2, t3, c);
                assert forall|m: Seq<u64>| #[trigger] agrees(t0, mem.trace(), m) implies agrees(
                    t0,
                    t2,
                    m,
                ) && same == has_key_at(m, c as int, i as int, key@) by {
                    lemma_agrees(t0, t2, mem.trace(), m);
                }
            }
            if same {
                proof {
                    let t = mem.trace();
                    let j = t2.len() - 1;
                    assert(reads_only(t2, t));
                    assert(t.take(t2.len() as int)[j] == t2[j]);
                    assert(loads(t, j, slot_at(c, i) + 8));
                    assert(value_loaded(t, c, i, v));
                }
                return Some((i, v));
            }
        }
        i = i + 1;
    }
    None
}

/// In the memory `m`, `entry` is the slot of the object or map at `c` that has `key`, and its
/// value handle.
pub open spec fn found_in(
    m: Seq<u64>,
    c: u64,
    key: Seq<char>,
    entry: Option<(u32, u64)>,
) -> bool {
    match slot_of(m, c as int, key) {
        Some(i) => entry matches Some((slot, v)) && slot == i && i < cap_of(m, c as int) && v
            == val_at(m, c as int, i),
        None => entry is None,
    }
}

/// From access `k` on `key` was looked up in the object or map at `c`, under its version,
/// which was `seq`, and `entry` was found: every memory that would have answered like that
/// has it so. The thread looked at the container and the texts of its keys alone.
pub open spec fn lookup(
    t: Seq<Event>,
    k: int,
    c: u64,
    key: Seq<char>,
    seq: u64,
    entry: Option<(u32, u64)>,
) -> bool {
    &&& stable_from(t, c, k)
    &&& seen(t, k) == seq
    &&& looks_only(t.take(k), t, c)
    &&& forall|m: Seq<u64>| #[trigger] agrees(t.take(k), t, m) ==> found_in(m, c, key, entry)
}

/// The thread ended by looking `key` up in the object or map at `c`, since `t0`.
pub open spec fn looked_up(
    t0: Seq<Event>,
    t: Seq<Event>,
    c: u64,
    key: Seq<char>,
    seq: u64,
    entry: Option<(u32, u64)>,
) -> bool {
    exists|k: int| t0.len() <= k && #[trigger] lookup(t, k, c, key, seq, entry)
}

/// The last accesses of `t` found the handle `h` in slot `slot` of the object or map at `c`,
/// under its version.
pub open spec fn slot_seen(t: Seq<Event>, c: u64, slot: u32, h: u64) -> bool {
    &&& stable_from(t, c, t.len() - 3)
    &&& loads(t, t.len() - 2, slot_at(c, slot) + 8)
    &&& seen(t, t.len() - 2) == h
}

/// With the accesses up to `i` the thread looked `key` up and found `entry`; with access `k`
/// it claimed the object or map at `c`, at the very version at which it had looked.
pub open spec fn claims_lookup(
    t0: Seq<Event>,
    t: Seq<Event>,
    c: u64,
    key: Seq<char>,
    entry: Option<(u32, u64)>,
    i: int,
    k: int,
) -> bool {
    &&& 0 <= i <= k < t.len()
    &&& marks(t[k], seq_off(c))
    &&& looked_up(t0, t.take(i), c, key, claimed(t, k), entry)
}

/// From `t0` to `t1` the thread looked `key` up, wrote `v` onto the node that it had found,
/// and found that the slot still leads to that node.
pub open spec fn overwrites_found(
    t0: Seq<Event>,
    t1: Seq<Event>,
    c: u64,
    key: Seq<char>,
    v: Value,
) -> bool {
    exists|i: int, seq: u64, slot: u32, h: u64| #[trigger]
        overwrites(t0, t1, c, key, v, i, seq, slot, h)
}

pub open spec fn overwrites(
    t0: Seq<Event>,
    t1: Seq<Event>,
    c: u64,
    key: Seq<char>,
    v: Value,
    i: int,
    seq: u64,
    slot: u32,
    h: u64,
) -> bool {
    &&& 0 <= i <= t1.len()
    &&& looked_up(t0, t1.take(i), c, key, seq, Some((slot, h)))
    &&& rewrites_and_looks(t1.take(i), t1, c, slot, h, v)
}

/// From `t0` to `t1` the thread wrote `v` onto the node behind `h`, and found that slot `slot`
/// of the object or map at `c` leads to it.
pub open spec fn rewrites_and_looks(
    t0: Seq<Event>,
    t1: Seq<Event>,
    c: u64,
    slot: u32,
    h: u64,
    v: Value,
) -> bool {
    exists|j: int|
        0 <= j <= t1.len() && #[trigger] node_rewritten(t0, t1.take(j), off_of(h), v)
            && reads_only(t1.take(j), t1) && slot_seen(t1, c, slot, h)
}

/// As `key_linked`, with what was found, and where the lookup ended and the claim is.
pub open spec fn links(
    t0: Seq<Event>,
    t1: Seq<Event>,
    c: u64,
    key: Seq<char>,
    h: u64,
    entry: Option<(u32, u64)>,
    i: int,
    k: int,
) -> bool {
    claims_lookup(t0, t1, c, key, entry, i, k) && linked(t1, k, c, key, entry, h)
}

/// From `t0` to `t1` the thread looked `key` up in the object or map at `c`, and linked the
/// handle `h` to it at the very version at which it had looked: in the slot that it had
/// found, or in one that it put to use.
pub open spec fn key_linked(
    t0: Seq<Event>,
    t1: Seq<Event>,
    c: u64,
    key: Seq<char>,
    h: u64,
) -> bool {
    exists|entry: Option<(u32, u64)>, i: int, k: int| #[trigger]
        links(t0, t1, c, key, h, entry, i, k)
}

/// From `t0` to `t1` the thread set `key` of the object or map at `c` to the scalar `v`: it
/// wrote it onto the node that it had found, or made a node for it and linked that. Else it did
/// nothing to the container.
pub open spec fn key_set(t0: Seq<Event>, t1: Seq<Event>, c: u64, key: Seq<char>, v: Value) -> bool {
    &&& claims_once(t0, t1, c, key, Some(v))
    &&& {
        ||| overwrites_found(t0, t1, c, key, v) && quiet(t0, t1, c, key, Some(v))
        ||| exists|h: u64| #[trigger]
            key_linked(t0, t1, c, key, h) && node_made(t0, t1, h, v)
    }
}

/// From `t0` to `t1` the thread linked the handle `h` to `key` of the object or map at `c`, and did
/// nothing else.
pub open spec fn handle_linked(
    t0: Seq<Event>,
    t1: Seq<Event>,
    c: u64,
    key: Seq<char>,
    h: u64,
) -> bool {
    claims_once(t0, t1, c, key, None) && key_linked(t0, t1, c, key, h)
}

/// As `full_found`, with where the lookup ended and the claim is.
pub open spec fn finds_full(
    t0: Seq<Event>,
    t1: Seq<Event>,
    c: u64,
    key: Seq<char>,
    i: int,
    k: int,
) -> bool {
    claims_lookup(t0, t1, c, key, None, i, k) && table_full(t1.take(k + 1), t1, c)
}

/// From `t0` to `t1` the thread looked `key` up in the object or map at `c`, found that it is
/// absent, claimed the node at the very version at which it had looked, and saw that all of its
/// slots are in use.
pub open spec fn full_found(t0: Seq<Event>, t1: Seq<Event>, c: u64, key: Seq<char>) -> bool {
    exists|i: int, k: int| #[trigger] finds_full(t0, t1, c, key, i, k)
}

/// As `key_emptied`, with what was found, and where the lookup ended and the claim is.
pub open spec fn empties(
    t0: Seq<Event>,
    t1: Seq<Event>,
    c: u64,
    key: Seq<char>,
    used: bool,
    slot: u32,
    h: u64,
    i: int,
    k: int,
) -> bool {
    claims_lookup(t0, t1, c, key, Some((slot, h)), i, k) && emptied(t1, k, c, slot, used)
}

/// From `t0` to `t1` the thread looked `key` up in the object or map at `c`, and emptied the
/// slot that it had found, at the very version at which it had looked; the slot was in use if
/// `used`.
pub open spec fn key_emptied(
    t0: Seq<Event>,
    t1: Seq<Event>,
    c: u64,
    key: Seq<char>,
    used: bool,
) -> bool {
    exists|slot: u32, h: u64, i: int, k: int| #[trigger]
        empties(t0, t1, c, key, used, slot, h, i, k)
}

/// From `t0` to `t1` the thread looked `key` up in the object or map at `c`, and emptied the slot
/// that it had found, at the very version at which it had looked.
pub open spec fn key_removed(t0: Seq<Event>, t1: Seq<Event>, c: u64, key: Seq<char>) -> bool {
    exists|used: bool| #[trigger] key_emptied(t0, t1, c, key, used)
}

/// From `t0` to `t1` the thread changed nothing, and ended by looking `key` up in the object or map
/// at `c`, where it is absent.
pub open spec fn key_absent(t0: Seq<Event>, t1: Seq<Event>, c: u64, key: Seq<char>) -> bool {
    idle(t0, t1) && exists|seq: u64| #[trigger] looked_up(t0, t1, c, key, seq, None)
}

/// What was looked up by then was looked up since earlier.
pub(crate) proof fn lemma_looked_up(
    t0: Seq<Event>,
    t1: Seq<Event>,
    t2: Seq<Event>,
    c: u64,
    key: Seq<char>,
    seq: u64,
    entry: Option<(u32, u64)>,
)
    requires
        t0.len() <= t1.len(),
        looked_up(t1, t2, c, key, seq, entry),
    ensures
        looked_up(t0, t2, c, key, seq, entry),
{
    let k = choose|k: int| t1.len() <= k && #[trigger] lookup(t2, k, c, key, seq, entry);
    assert(t0.len() <= k && lookup(t2, k, c, key, seq, entry));
}

/// A claim at the version of a lookup.
pub(crate) proof fn lemma_claims_lookup(
    t0: Seq<Event>,
    t1: Seq<Event>,
    t2: Seq<Event>,
    t3: Seq<Event>,
    c: u64,
    key: Seq<char>,
    seq: u64,
    entry: Option<(u32, u64)>,
    k: int,
)
    requires
        t0.len() <= t1.len(),
        looked_up(t1, t2, c, key, seq, entry),
        extends(t2, t3),
        t2.len() <= k < t3.len(),
        marks(t3[k], seq_off(c)),
        claimed(t3, k) == seq,
    ensures
        claims_lookup(t0, t3, c, key, entry, t2.len() as int, k),
{
    lemma_looked_up(t0, t1, t2, c, key, seq, entry);
    assert(t3.take(t2.len() as int) == t2);
}

/// Finds `key` in the object or map at `c`: gives the version of the container
/// and, if the key is present, its slot and value handle. Nothing if a writer did
/// not release the container.
#[verifier::rlimit(50)]
pub fn find_key<M: Memory>(mem: &mut M, c: u64, key: &str) -> (found: Option<
    (u64, Option<(u32, u64)>),
>)
    requires
        c < OFFSET_LIMIT,
    ensures
        final(mem).words() == old(mem).words(),
        final(mem).patience() <= old(mem).patience(),
        reads_only(old(mem).trace(), final(mem).trace()),
        found is None ==> final(mem).patience() == 0,
        looks_only(old(mem).trace(), final(mem).trace(), c),
        found matches Some((_, Some((slot, v)))) ==> slot_known(
            old(mem).trace(),
            final(mem).trace(),
            c,
            slot,
        ) && value_read(final(mem).trace(), c, v),
        found matches Some((seq, entry)) ==> seq % 2 == 0 && looked_up(
            old(mem).trace(),
            final(mem).trace(),
            c,
            key@,
            seq,
            entry,
        ),
        final(mem).undisturbed() ==> {
            let ws = old(mem).words();
            &&& old(mem).undisturbed()
            &&& found is Some == !odd(seq_of(ws, c as int))
            &&& found matches Some((seq, entry)) ==> seq == seq_of(ws, c as int) && match slot_of(
                ws,
                c as int,
                key@,
            ) {
                Some(i) => entry matches Some((slot, v)) && slot == i && i < cap_of(ws, c as int)
                    && v == val_at(ws, c as int, i),
                None => entry is None,
            }
        },
{
    let bytes: &[u8] = key.as_bytes();
    loop
        invariant
            c < OFFSET_LIMIT,
            bytes@ == encode_utf8(key@),
            mem.words() == old(mem).words(),
            mem.patience() <= old(mem).patience(),
            mem.undisturbed() ==> old(mem).undisturbed(),
            reads_only(old(mem).trace(), mem.trace()),
            looks_only(old(mem).trace(), mem.trace(), c),
        decreases mem.patience(),
    {
        let ghost tb = mem.trace();
        let s0: u64 = mem.load(c + 16);
        let ghost t0 = mem.trace();
        assert(reads_only(old(mem).trace(), t0));
        proof {
            assert(t0.take(tb.len() as int) =~= tb);
            lemma_looks_only(old(mem).trace(), tb, t0, c);
        }
        if !seq_is_odd(s0) {
            let cap: u32 = load_cap(mem, c);
            let ghost tc = mem.trace();
            proof {
                assert(tc.take(t0.len() as int) =~= t0);
                lemma_looks_only(old(mem).trace(), t0, tc, c);
                assert forall|slot: u32| slot < cap implies #[trigger] known(tc, c, slot) by {
                    assert(loads(tc, t0.len() as int, c + 8));
                }
            }
            let entry: Option<(u32, u64)> = scan_key(mem, c, cap, bytes);
            let ghost t1 = mem.trace();
            assert(reads_only(old(mem).trace(), t1));
            let s1: u64 = mem.load(c + 16);
            proof {
                let t2 = mem.trace();
                lemma_looks_only(old(mem).trace(), tc, t1, c);
                assert(t2.take(t1.len() as int) =~= t1);
                lemma_looks_only(old(mem).trace(), t1, t2, c);
            }
            if s1 == s0 {
                proof {
                    lemma_stable(t0, t1, c, s0);
                    assert(stable_from(mem.trace(), c, t0.len() - 1));
                    assert(t1.take(t0.len() as int)[t0.len() - 1] == t0.last());
                    let t2 = mem.trace();
                    let k = t0.len() - 1;
                    assert(t2.take(t1.len() as int) =~= t1);
                    assert forall|m: Seq<u64>| #[trigger]
                        agrees(t2.take(k), t2, m) implies found_in(m, c, key@, entry) by {
                        lemma_agrees(t2.take(k), t1, t2, m);
                        lemma_agrees(t2.take(k), tc, t1, m);
                        lemma_agrees(t2.take(k), t0, tc, m);
                    }
                    assert(lookup(t2, k, c, key@, s0, entry));
                    if entry is Some {
                        let j = t0.len() as int;
                        assert(t1.take(tc.len() as int)[j] == tc[j]);
                        assert(loads(t2, j, c + 8));
                        let (slot, v) = entry.unwrap();
                        assert(slot_known(old(mem).trace(), t2, c, slot));
                        assert(slot_known(Seq::empty(), t2, c, slot));
                        let x = choose|x: int|
                            0 <= x < t1.len() && #[trigger] loads(t1, x, slot_at(c, slot) + 8)
                                && seen(t1, x) == v;
                        assert(t2[x] == t1[x]);
                        assert(reads_value(t2, c, v, slot, x));
                    }
                }
                return Some((s0, entry));
            }
        }
        if !mem.pause() {
            return None;
        }
    }
}

// Reading.

/// Nothing that a lookup in a region in order leads to is being written.
proof fn lemma_lookup_free(ws: Seq<u64>, h: u64, key: Seq<char>)
    requires
        wf(ws),
        live_table(ws, h),
    ensures
        !odd(seq_of(ws, off_of(h) as int)),
        !value_locked(ws, handle_for(ws, off_of(h) as int, key)),
{
    let c = off_of(h) as int;
    lemma_not_locked(ws, h);
    lemma_slot_from(ws, c, encode_utf8(key), 0, cap_of(ws, c));
    if let Some(i) = slot_of(ws, c, key) {
        lemma_used_key(ws, c, i);
        lemma_not_locked(ws, val_at(ws, c, i));
    }
}

/// No element of an array in a region in order is being written.
proof fn lemma_item_free(ws: Seq<u64>, h: u64, i: int)
    requires
        wf(ws),
        live_list(ws, h),
        0 <= i,
    ensures
        !odd(seq_of(ws, off_of(h) as int)),
        !value_locked(ws, item_for(ws, off_of(h) as int, i)),
{
    let a = off_of(h) as int;
    lemma_not_locked(ws, h);
    lemma_node(ws, a);
    if i < cap_of(ws, a) && item_at(ws, a, i) != H_INVALID {
        lemma_not_locked(ws, item_at(ws, a, i));
    }
}

/// The thread ended by looking `key` up in the object or map at `c`, since `t0`, and found the
/// handle `h`, or nothing.
pub open spec fn handle_found(
    t0: Seq<Event>,
    t: Seq<Event>,
    c: u64,
    key: Seq<char>,
    h: u64,
) -> bool {
    exists|seq: u64, entry: Option<(u32, u64)>| #[trigger]
        looked_up(t0, t, c, key, seq, entry) && h == match entry {
            Some((_, v)) => v,
            None => H_INVALID,
        }
}

/// With the accesses up to `i` the thread looked `key` up in the object or map at `c`, since
/// `t0`, and found the handle `h`; with the others it read the value `v` behind `h`.
pub open spec fn key_then_value(
    t0: Seq<Event>,
    t: Seq<Event>,
    c: u64,
    key: Seq<char>,
    h: u64,
    i: int,
    v: Value,
) -> bool {
    &&& 0 <= i <= t.len()
    &&& handle_found(t0, t.take(i), c, key, h)
    &&& value_seen(t.take(i), t, h, v)
}

/// From `t0` to `t` the thread read the value `v` under `key` of the object or map at `c`.
pub open spec fn key_read(t0: Seq<Event>, t: Seq<Event>, c: u64, key: Seq<char>, v: Value) -> bool {
    exists|h: u64, i: int| #[trigger] key_then_value(t0, t, c, key, h, i, v)
}

/// The thread ended by reading slot `i` of the array at `a`, since `t0`, and found the handle
/// `h`: under the version of the array, or nothing because the array has no such slot.
pub open spec fn item_found(t0: Seq<Event>, t: Seq<Event>, a: u64, i: int, h: u64) -> bool {
    let k = t.len() - 1;
    ||| t0.len() <= k && loads(t, k, a + 8) && i >= lower(seen(t, k)) && h == H_INVALID
    ||| t0.len() <= k - 2 && stable_from(t, a, k - 2) && loads(t, k - 1, item_word(a, i)) && seen(
        t,
        k - 1,
    ) == h
}

/// With the accesses up to `k` the thread read slot `i` of the array at `a`, since `t0`, and
/// found the handle `h`; with the others it read the value `v` behind `h`.
pub open spec fn item_then_value(
    t0: Seq<Event>,
    t: Seq<Event>,
    a: u64,
    i: int,
    h: u64,
    k: int,
    v: Value,
) -> bool {
    &&& 0 <= k <= t.len()
    &&& item_found(t0, t.take(k), a, i, h)
    &&& value_seen(t.take(k), t, h, v)
}

/// From `t0` to `t` the thread read the value `v` in slot `i` of the array at `a`.
pub open spec fn item_read(t0: Seq<Event>, t: Seq<Event>, a: u64, i: int, v: Value) -> bool {
    exists|h: u64, k: int| #[trigger] item_then_value(t0, t, a, i, h, k, v)
}

/// Reads `key` from an object or map; null if it is not there.
pub fn get_key<M: Memory>(mem: &mut M, handle: u64, key: &str) -> (rv: Result<RVal, GraphError>)
    ensures
        final(mem).words() == old(mem).words(),
        final(mem).patience() <= old(mem).patience(),
        reads_only(old(mem).trace(), final(mem).trace()),
        rv matches Ok(v) ==> key_read(
            old(mem).trace(),
            final(mem).trace(),
            off_of(handle),
            key@,
            v@,
        ),
        rv matches Err(e) ==> e == GraphError::Busy && final(mem).patience() == 0,
        final(mem).undisturbed() ==> {
            let ws = old(mem).words();
            let c = off_of(handle) as int;
            let h = handle_for(ws, c, key@);
            &&& old(mem).undisturbed()
            &&& rv is Ok == (!odd(seq_of(ws, c)) && !value_locked(ws, h))
            &&& rv matches Ok(v) ==> v@ == value_at(ws, h)
        },
        final(mem).undisturbed() && wf(old(mem).words()) && live_table(old(mem).words(), handle)
            ==> rv is Ok,
{
    proof {
        if wf(mem.words()) && live_table(mem.words(), handle) {
            lemma_lookup_free(mem.words(), handle, key@);
        }
    }
    let h: u64 = match read_key_handle(mem, handle, key) {
        Ok(h) => h,
        Err(e) => {
            return Err(e);
        },
    };
    let ghost t1 = mem.trace();
    let rv: Result<RVal, GraphError> = handle_to_rval(mem, h);
    proof {
        if rv is Ok {
            let t0 = old(mem).trace();
            let t2 = mem.trace();
            let c = off_of(handle);
            assert(t2.take(t1.len() as int) == t1);
            assert(key_then_value(t0, t2, c, key@, h, t1.len() as int, rv->Ok_0@));
        }
    }
    rv
}

/// Whether an object or map has `key`.
pub fn has_key<M: Memory>(mem: &mut M, handle: u64, key: &str) -> (r: Result<bool, GraphError>)
    ensures
        final(mem).words() == old(mem).words(),
        final(mem).patience() <= old(mem).patience(),
        reads_only(old(mem).trace(), final(mem).trace()),
        r matches Ok(has) ==> exists|seq: u64, entry: Option<(u32, u64)>| #[trigger]
            looked_up(
                old(mem).trace(),
                final(mem).trace(),
                off_of(handle),
                key@,
                seq,
                entry,
            ) && has == (entry is Some),
        r matches Err(e) ==> e == GraphError::Busy && final(mem).patience() == 0,
        final(mem).undisturbed() ==> {
            let ws = old(mem).words();
            let c = off_of(handle) as int;
            &&& old(mem).undisturbed()
            &&& r is Ok == !odd(seq_of(ws, c))
            &&& r matches Ok(has) ==> has == (slot_of(ws, c, key@) is Some)
        },
        final(mem).undisturbed() && wf(old(mem).words()) && live_table(old(mem).words(), handle)
            ==> r is Ok,
{
    proof {
        if wf(mem.words()) && live_table(mem.words(), handle) {
            lemma_lookup_free(mem.words(), handle, key@);
        }
    }
    match find_key(mem, hoff(handle), key) {
        Some((_, entry)) => Ok(entry.is_some()),
        None => Err(GraphError::Busy),
    }
}

/// The value handle that an object or map has for `key`, or `H_INVALID`.
pub fn read_key_handle<M: Memory>(mem: &mut M, c: u64, key: &str) -> (h: Result<u64, GraphError>)
    ensures
        final(mem).words() == old(mem).words(),
        final(mem).patience() <= old(mem).patience(),
        reads_only(old(mem).trace(), final(mem).trace()),
        h matches Ok(v) ==> handle_found(
            old(mem).trace(),
            final(mem).trace(),
            off_of(c),
            key@,
            v,
        ),
        h matches Err(e) ==> e == GraphError::Busy && final(mem).patience() == 0,
        final(mem).undisturbed() ==> {
            let ws = old(mem).words();
            &&& old(mem).undisturbed()
            &&& h is Ok == !odd(seq_of(ws, off_of(c) as int))
            &&& h matches Ok(v) ==> v == handle_for(ws, off_of(c) as int, key@)
        },
        final(mem).undisturbed() && wf(old(mem).words()) && live_table(old(mem).words(), c)
            ==> h is Ok,
{
    proof {
        if wf(mem.words()) && live_table(mem.words(), c) {
            lemma_lookup_free(mem.words(), c, key@);
        }
    }
    match find_key(mem, hoff(c), key) {
        Some((_, Some((_, vh)))) => Ok(vh),
        Some((_, None)) => Ok(H_INVALID),
        None => Err(GraphError::Busy),
    }
}

/// The value handle at index `i` of an array, or `H_INVALID`.
pub fn read_index_handle<M: Memory>(mem: &mut M, c: u64, i: usize) -> (h: Result<u64, GraphError>)
    ensures
        final(mem).words() == old(mem).words(),
        final(mem).patience() <= old(mem).patience(),
        reads_only(old(mem).trace(), final(mem).trace()),
        h matches Ok(v) ==> item_found(
            old(mem).trace(),
            final(mem).trace(),
            off_of(c),
            i as int,
            v,
        ),
        h matches Err(e) ==> e == GraphError::Busy && final(mem).patience() == 0,
        final(mem).undisturbed() ==> {
            let ws = old(mem).words();
            let a = off_of(c) as int;
            &&& old(mem).undisturbed()
            &&& h is Ok == (i >= cap_of(ws, a) || !odd(seq_of(ws, a)))
            &&& h matches Ok(v) ==> v == item_for(ws, a, i as int)
        },
        final(mem).undisturbed() && wf(old(mem).words()) && live_list(old(mem).words(), c)
            ==> h is Ok,
{
    proof {
        if wf(mem.words()) && live_list(mem.words(), c) {
            lemma_item_free(mem.words(), c, i as int);
        }
    }
    let a: u64 = hoff(c);
    let sizes: u64 = mem.load(a + 8);
    let cap: u32 = lower_half(sizes);
    assert(reads_only(old(mem).trace(), mem.trace()));
    if i as u64 >= cap as u64 {
        return Ok(H_INVALID);
    }
    match read_array_value(mem, a, i as u64) {
        Some(v) => Ok(v),
        None => Err(GraphError::Busy),
    }
}

/// Reads slot `slot` of the array at `a` under its version.
fn read_array_value<M: Memory>(mem: &mut M, a: u64, slot: u64) -> (v: Option<u64>)
    requires
        a < OFFSET_LIMIT,
        slot <= 0xffff_ffff,
    ensures
        final(mem).words() == old(mem).words(),
        final(mem).patience() <= old(mem).patience(),
        reads_only(old(mem).trace(), final(mem).trace()),
        v is None ==> final(mem).patience() == 0,
        v matches Some(h) ==> {
            let t = final(mem).trace();
            &&& old(mem).trace().len() <= t.len() - 3
            &&& stable_from(t, a, t.len() - 3)
            &&& loads(t, t.len() - 2, item_word(a, slot as int))
            &&& seen(t, t.len() - 2) == h
        },
        final(mem).undisturbed() ==> old(mem).undisturbed() && v == if odd(
            seq_of(old(mem).words(), a as int),
        ) {
            None
        } else {
            Some(item_at(old(mem).words(), a as int, slot as int))
        },
{
    read_window_value(mem, a, a + NODE_HDR + 8 * slot)
}

/// Reads the value handle in slot `slot` of the object or map at `c` under its
/// version.
pub(crate) fn read_kv_value<M: Memory>(mem: &mut M, c: u64, slot: u32) -> (v: Option<u64>)
    requires
        c < OFFSET_LIMIT,
    ensures
        final(mem).words() == old(mem).words(),
        final(mem).patience() <= old(mem).patience(),
        reads_only(old(mem).trace(), final(mem).trace()),
        v is None ==> final(mem).patience() == 0,
        v matches Some(h) ==> slot_seen(final(mem).trace(), c, slot, h),
        final(mem).undisturbed() ==> old(mem).undisturbed() && v == if odd(
            seq_of(old(mem).words(), c as int),
        ) {
            None
        } else {
            Some(val_at(old(mem).words(), c as int, slot as int))
        },
{
    read_window_value(mem, c, c + NODE_HDR + 16 * slot as u64 + 8)
}

/// Reads index `i` of an array; null if nothing is there.
pub fn get_index<M: Memory>(mem: &mut M, handle: u64, i: usize) -> (rv: Result<RVal, GraphError>)
    ensures
        final(mem).words() == old(mem).words(),
        final(mem).patience() <= old(mem).patience(),
        reads_only(old(mem).trace(), final(mem).trace()),
        rv matches Ok(v) ==> item_read(
            old(mem).trace(),
            final(mem).trace(),
            off_of(handle),
            i as int,
            v@,
        ),
        rv matches Err(e) ==> e == GraphError::Busy && final(mem).patience() == 0,
        final(mem).undisturbed() ==> {
            let ws = old(mem).words();
            let a = off_of(handle) as int;
            let h = item_for(ws, a, i as int);
            &&& old(mem).undisturbed()
            &&& rv is Ok == (i >= cap_of(ws, a) || !odd(seq_of(ws, a)) && !value_locked(ws, h))
            &&& rv matches Ok(v) ==> v@ == value_at(ws, h)
        },
        final(mem).undisturbed() && wf(old(mem).words()) && live_list(old(mem).words(), handle)
            ==> rv is Ok,
{
    proof {
        if wf(mem.words()) && live_list(mem.words(), handle) {
            lemma_item_free(mem.words(), handle, i as int);
        }
    }
    let h: u64 = match read_index_handle(mem, handle, i) {
        Ok(h) => h,
        Err(e) => {
            return Err(e);
        },
    };
    let ghost t1 = mem.trace();
    let rv: Result<RVal, GraphError> = handle_to_rval(mem, h);
    proof {
        if rv is Ok {
            let t0 = old(mem).trace();
            let t2 = mem.trace();
            let a = off_of(handle);
            assert(t2.take(t1.len() as int) == t1);
            assert(item_then_value(t0, t2, a, i as int, h, t1.len() as int, rv->Ok_0@));
        }
    }
    rv
}

/// Materializes the value behind `handle`.
pub fn rval<M: Memory>(mem: &mut M, handle: u64) -> (rv: Result<RVal, GraphError>)
    ensures
        final(mem).words() == old(mem).words(),
        final(mem).patience() <= old(mem).patience(),
        reads_only(old(mem).trace(), final(mem).trace()),
        rv matches Ok(v) ==> value_seen(old(mem).trace(), final(mem).trace(), handle, v@),
        rv matches Err(e) ==> e == GraphError::Busy && final(mem).patience() == 0,
        final(mem).undisturbed() ==> {
            let ws = old(mem).words();
            &&& old(mem).undisturbed()
            &&& rv is Ok == !value_locked(ws, handle)
            &&& rv matches Ok(v) ==> v@ == value_at(ws, handle)
        },
        final(mem).undisturbed() && wf(old(mem).words()) && live(old(mem).words(), handle)
            ==> rv is Ok,
{
    proof {
        if wf(mem.words()) && live(mem.words(), handle) {
            lemma_not_locked(mem.words(), handle);
        }
    }
    handle_to_rval(mem, handle)
}

/// The length of a container.
pub fn length<M: Memory>(mem: &mut M, handle: u64) -> (len: Result<u32, GraphError>)
    ensures
        final(mem).words() == old(mem).words(),
        final(mem).patience() == old(mem).patience(),
        reads_only(old(mem).trace(), final(mem).trace()),
        len matches Ok(n) && {
            let t = final(mem).trace();
            let k = t.len() - 1;
            &&& old(mem).trace().len() <= k
            &&& loads(t, k, off_of(handle) + 24)
            &&& n == lower(seen(t, k))
        },
        final(mem).undisturbed() ==> old(mem).undisturbed() && len == Ok::<u32, GraphError>(
            lower(count_of(old(mem).words(), off_of(handle) as int)),
        ),
{
    let count: u64 = mem.load(hoff(handle) + 24);
    Ok(lower_half(count))
}

/// The texts of `keys`.
pub open spec fn texts(keys: Seq<String>) -> Seq<Seq<char>> {
    keys.map_values(|s: String| s@)
}

/// Reads the keys of the slots of the object or map at `c`.
fn scan_keys<M: Memory>(mem: &mut M, c: u64, cap: u32) -> (keys: Vec<String>)
    requires
        c < OFFSET_LIMIT,
    ensures
        final(mem).words() == old(mem).words(),
        final(mem).patience() == old(mem).patience(),
        reads_only(old(mem).trace(), final(mem).trace()),
        forall|m: Seq<u64>| #[trigger]
            agrees(old(mem).trace(), final(mem).trace(), m) ==> texts(keys@) == keys_in(
                m,
                c as int,
                cap as int,
            ),
        final(mem).undisturbed() ==> old(mem).undisturbed() && texts(keys@) == keys_in(
            old(mem).words(),
            c as int,
            cap as int,
        ),
{
    let mut out: Vec<String> = Vec::new();
    let mut i: u32 = 0;
    let ghost t0 = mem.trace();
    assert(texts(out@) =~= Seq::<Seq<char>>::empty());
    while i < cap
        invariant
            t0 == old(mem).trace(),
            forall|m: Seq<u64>| #[trigger]
                agrees(t0, mem.trace(), m) ==> texts(out@) == keys_in(m, c as int, i as int),
            c < OFFSET_LIMIT,
            i <= cap,
            mem.words() == old(mem).words(),
            mem.patience() == old(mem).patience(),
            reads_only(old(mem).trace(), mem.trace()),
            mem.undisturbed() ==> old(mem).undisturbed() && texts(out@) == keys_in(
                old(mem).words(),
                c as int,
                i as int,
            ),
        decreases cap - i,
    {
        let ghost t1 = mem.trace();
        let k: u64 = mem.load(c + NODE_HDR + 16 * i as u64);
        let ghost t2 = mem.trace();
        let ghost before = out@;
        proof {
            assert(reads_only(t0, t2));
            assert(t2.take(t1.len() as int) =~= t1);
            assert forall|m: Seq<u64>| #[trigger] agrees(t0, t2, m) implies texts(before)
                == keys_in(m, c as int, i as int) && k == key_at(m, c as int, i as int) by {
                lemma_agrees(t0, t1, t2, m);
                assert(answered(m, t2[t1.len() as int]));
            }
        }
        if k != H_INVALID && hkind(k) == KIND_STR {
            let s_off: u64 = hoff(k);
            let sizes: u64 = mem.load(s_off + 8);
            let ghost t3 = mem.trace();
            assert(reads_only(t0, t3));
            let bytes: Vec<u8> = read_bytes(mem, s_off + NODE_HDR, upper_half(sizes));
            let key: String = lossy_string(&bytes);
            out.push(key);
            proof {
                assert(texts(out@) =~= texts(before).push(key@));
                assert(t3.take(t2.len() as int) =~= t2);
                assert forall|m: Seq<u64>| #[trigger] agrees(t0, mem.trace(), m) implies texts(out@)
                    == keys_in(m, c as int, i + 1) by {
                    lemma_agrees(t0, t3, mem.trace(), m);
                    lemma_agrees(t0, t2, t3, m);
                    assert(answered(m, t3[t2.len() as int]));
                }
            }
        }
        i = i + 1;
    }
    out
}

/// From access `k` on the keys of the object or map at `c` were listed, under its version:
/// every memory that would have answered like that has these keys.
pub open spec fn keys_listed(t: Seq<Event>, k: int, c: u64, keys: Seq<Seq<char>>) -> bool {
    &&& stable_from(t, c, k)
    &&& forall|m: Seq<u64>| #[trigger]
        agrees(t.take(k), t, m) ==> keys == keys_in(m, c as int, cap_of(m, c as int))
}

/// The thread ended by listing the keys of the object or map at `c`, since `t0`.
pub open spec fn keys_read(
    t0: Seq<Event>,
    t: Seq<Event>,
    c: u64,
    keys: Seq<Seq<char>>,
) -> bool {
    exists|k: int| t0.len() <= k && #[trigger] keys_listed(t, k, c, keys)
}

/// Lists the keys of an object or map.
pub fn keys_of<M: Memory>(mem: &mut M, handle: u64) -> (keys: Result<Vec<String>, GraphError>)
    ensures
        final(mem).words() == old(mem).words(),
        final(mem).patience() <= old(mem).patience(),
        reads_only(old(mem).trace(), final(mem).trace()),
        keys matches Err(e) ==> e == GraphError::Busy && final(mem).patience() == 0,
        keys matches Ok(list) ==> keys_read(
            old(mem).trace(),
            final(mem).trace(),
            off_of(handle),
            texts(list@),
        ),
        final(mem).undisturbed() ==> {
            let ws = old(mem).words();
            let c = off_of(handle) as int;
            &&& old(mem).undisturbed()
            &&& keys is Ok == !odd(seq_of(ws, c))
            &&& keys matches Ok(list) ==> texts(list@) == keys_in(ws, c, cap_of(ws, c))
        },
        final(mem).undisturbed() && wf(old(mem).words()) && live_table(old(mem).words(), handle)
            ==> keys is Ok,
{
    let c: u64 = hoff(handle);
    loop
        invariant
            c < OFFSET_LIMIT,
            c == off_of(handle),
            mem.words() == old(mem).words(),
            mem.patience() <= old(mem).patience(),
            mem.undisturbed() ==> old(mem).undisturbed(),
            reads_only(old(mem).trace(), mem.trace()),
        decreases mem.patience(),
    {
        let s0: u64 = mem.load(c + 16);
        let ghost t0 = mem.trace();
        assert(reads_only(old(mem).trace(), t0));
        if !seq_is_odd(s0) {
            let cap: u32 = load_cap(mem, c);
            let ghost tc = mem.trace();
            let keys: Vec<String> = scan_keys(mem, c, cap);
            let ghost t1 = mem.trace();
            assert(reads_only(old(mem).trace(), t1));
            let s1: u64 = mem.load(c + 16);
            if s1 == s0 {
                proof {
                    lemma_stable(t0, t1, c, s0);
                    assert(stable_from(mem.trace(), c, t0.len() - 1));
                    assert(t1.take(t0.len() as int)[t0.len() - 1] == t0.last());
                    let t2 = mem.trace();
                    let k = t0.len() - 1;
                    assert(t2.take(t1.len() as int) =~= t1);
                    assert forall|m: Seq<u64>| #[trigger]
                        agrees(t2.take(k), t2, m) implies texts(keys@) == keys_in(
                        m,
                        c as int,
                        cap_of(m, c as int),
                    ) by {
                        lemma_agrees(t2.take(k), t1, t2, m);
                        lemma_agrees(t2.take(k), tc, t1, m);
                        lemma_agrees(t2.take(k), t0, tc, m);
                    }
                    assert(keys_listed(t2, k, c, texts(keys@)));
                }
                return Ok(keys);
            }
        }
        if !mem.pause() {
            proof {
                if wf(mem.words()) && live_table(mem.words(), handle) {
                    lemma_not_locked(mem.words(), handle);
                }
            }
            return Err(GraphError::Busy);
        }
    }
}

} // verus!
