//! What a call has seen and done, whatever other threads do meanwhile.
//!
//! `history`, `linear` and `calls` say what it comes to that a thread looked a key up, read a
//! value, made a node or linked it, while others did the same. The laws here say that this is what
//! the calls on references do, for the very keys and values that they are given, and that what they
//! give is what they saw.
use crate::attempts::{claims_once, quiet};
use crate::counters::key_counted;
use crate::discipline::{disciplined, work_of};
use crate::exchange::{
    double_gives, double_gives_none, lemma_comes_back, same_low_bits, signed_bits,
};
use crate::graph::{empties, full_found, links, lookup, overwrites_found, texts};
use crate::js::{stored_as, ApiError, JsInput, JsKey, JsOutput};
use crate::layout::cap_of;
use crate::limits::{bytes_of, fits_a_node, lemma_bytes, lemma_kind_byte, node_bytes};
use crate::making::{
    container_bytes, create_array_gives, create_map_gives, create_object_gives, root_gives,
};
use crate::memory::{Event, Memory};
use crate::node::{counted_once, no_space, value_refused, value_seen};
use crate::noderef::{
    append_refused, item_appended, item_stored, key_found, key_then_shown, scalar_refused,
    scalar_stored, NodeRef,
};
use crate::record::{agrees, item_written, node_made, push_made};
use crate::region::SharedRegion;
use crate::steps::{
    delete_gives, get_node_gives, get_value_gives, has_gives, increment_gives, keys_gives,
    length_gives, push_gives, push_node_gives, set_gives, set_node_gives,
};
use crate::tables::keys_in;
use crate::trace::{idle, loads, reads_only, seen, stable_from};
use crate::value::{container_kind, kind_of, off_of, GraphError, Value};
use vstd::prelude::*;
use vstd::utf8::encode_utf8;

verus! {

/// The value shows as `out`; a container shows as nothing.
pub open spec fn shows_as(v: Value, out: JsOutput) -> bool {
    match v {
        Value::Bool(b) => out matches JsOutput::Boolean(c) && c == b,
        Value::Int(n) => out matches JsOutput::Int(m) && m == n,
        Value::Float(bits) => out matches JsOutput::Number(same) && same == bits,
        Value::BigInt(n) => out matches JsOutput::BigInt(m) && m == n,
        Value::Str(s) => out matches JsOutput::Text(t) && t@ == s,
        _ => out is Null,
    }
}

/// The value is what was handed over as `input`.
pub open spec fn kept_as(input: JsInput, v: Value) -> bool {
    match input {
        JsInput::Null | JsInput::Undefined => v is Null,
        JsInput::Boolean(b) => v == Value::Bool(b),
        JsInput::Number(bits) => match v {
            Value::Int(n) => double_gives(bits, n),
            Value::Float(same) => same == bits && double_gives_none(bits),
            _ => false,
        },
        JsInput::Text(s) => v == Value::Str(s@),
        JsInput::BigInt { negative, words } => v matches Value::BigInt(n) && same_low_bits(
            n as int,
            signed_bits(negative, words@),
        ),
        JsInput::Other => false,
    }
}

proof fn lemma_kept_as(input: JsInput, v: Value)
    requires
        stored_as(input, v),
    ensures
        kept_as(input, v),
{
    match v {
        Value::Int(n) => {
            lemma_comes_back(input, v, JsOutput::Int(n));
        },
        Value::Float(f) => {
            lemma_comes_back(input, v, JsOutput::Number(f));
        },
        Value::BigInt(n) => {
            lemma_comes_back(input, v, JsOutput::BigInt(n));
        },
        _ => {},
    }
}

/// The handle that was found under a key, zero if there was none.
pub open spec fn handle_in(entry: Option<(u32, u64)>) -> u64 {
    match entry {
        Some((_, h)) => h,
        None => 0,
    }
}

/// With its accesses from `i` on the thread read the value behind `h`, and it shows as `out`.
pub open spec fn shown_from(t: Seq<Event>, i: int, h: u64, out: JsOutput) -> bool {
    if container_kind(kind_of(h)) {
        out is Null
    } else {
        exists|v: Value| #[trigger] value_seen(t.take(i), t, h, v) && shows_as(v, out)
    }
}

proof fn lemma_shows(v: Value, out: JsOutput)
    requires
        out@ == v,
    ensures
        shows_as(v, out),
{
}

// Objects and maps.

/// With its accesses from `k` to `i` the thread looked the key up, and with those from `i` on it
/// read the value that the key leads to.
pub open spec fn looked_then_read(
    t0: Seq<Event>,
    t: Seq<Event>,
    c: u64,
    key: Seq<char>,
    k: int,
    i: int,
    seq: u64,
    entry: Option<(u32, u64)>,
    out: JsOutput,
) -> bool {
    &&& t0.len() <= k
    &&& 0 <= i <= t.len()
    &&& lookup(t.take(i), k, c, key, seq, entry)
    &&& shown_from(t, i, handle_in(entry), out)
}

/// The value that a text of an object or map shows has been looked up under that very text, and
/// read.
pub proof fn law_value_was_looked_up<M: Memory>(
    node: NodeRef,
    s: String,
    m: &mut M,
    out: JsOutput,
)
    requires
        get_value_gives(node, m, JsKey::Text(s), Ok(out)),
    ensures
        exists|k: int, i: int, seq: u64, entry: Option<(u32, u64)>| #[trigger]
            looked_then_read(
                old(m).trace(),
                final(m).trace(),
                off_of(node.handle),
                s@,
                k,
                i,
                seq,
                entry,
                out,
            ),
        reads_only(old(m).trace(), final(m).trace()),
{
    reveal(get_value_gives);
    let t0 = old(m).trace();
    let t = final(m).trace();
    let c = off_of(node.handle);
    let (i, v) = choose|i: int, v: u64| #[trigger]
        key_then_shown(t0, t, node.handle, JsKey::Text(s), i, v, out@);
    let (seq, entry) = choose|seq: u64, entry: Option<(u32, u64)>| #[trigger]
        crate::graph::looked_up(t0, t.take(i), c, s@, seq, entry) && v == handle_in(entry);
    let k = choose|k: int| t0.len() <= k && #[trigger] lookup(t.take(i), k, c, s@, seq, entry);
    lemma_shows(out@, out);
    assert(shown_from(t, i, handle_in(entry), out));
    assert(looked_then_read(t0, t, c, s@, k, i, seq, entry, out));
}

/// That a text is there, and which container is there under it, has been looked up under that very
/// text.
pub proof fn law_presence_was_looked_up<M: Memory>(
    node: NodeRef,
    s: String,
    m: &mut M,
    n: &mut M,
    has: bool,
    child: Option<NodeRef>,
)
    requires
        has_gives(node, m, JsKey::Text(s), Ok(has)),
        get_node_gives(node, n, JsKey::Text(s), Ok(child)),
    ensures
        exists|k: int, seq: u64, entry: Option<(u32, u64)>|
            old(m).trace().len() <= k && #[trigger] lookup(
                final(m).trace(),
                k,
                off_of(node.handle),
                s@,
                seq,
                entry,
            ) && has == (handle_in(entry) != 0),
        exists|k: int, seq: u64, entry: Option<(u32, u64)>|
            old(n).trace().len() <= k && #[trigger] lookup(
                final(n).trace(),
                k,
                off_of(node.handle),
                s@,
                seq,
                entry,
            ) && match child {
                Some(g) => g.handle == handle_in(entry) && g.base == node.base && container_kind(
                    kind_of(g.handle),
                ),
                None => !container_kind(kind_of(handle_in(entry))),
            },
{
    reveal(has_gives);
    reveal(get_node_gives);
    let c = off_of(node.handle);
    let v = choose|v: u64| #[trigger]
        key_found(old(m).trace(), final(m).trace(), node.handle, JsKey::Text(s), v) && has == (v
            != 0);
    lemma_found(old(m).trace(), final(m).trace(), node.handle, s, v);
    let w = choose|w: u64| #[trigger]
        key_found(old(n).trace(), final(n).trace(), node.handle, JsKey::Text(s), w) && child
            == if container_kind(kind_of(w)) {
            Some(NodeRef { base: node.base, handle: w })
        } else {
            None
        };
    lemma_found(old(n).trace(), final(n).trace(), node.handle, s, w);
}

proof fn lemma_found(t0: Seq<Event>, t: Seq<Event>, h: u64, s: String, v: u64)
    requires
        key_found(t0, t, h, JsKey::Text(s), v),
    ensures
        exists|k: int, seq: u64, entry: Option<(u32, u64)>|
            t0.len() <= k && #[trigger] lookup(t, k, off_of(h), s@, seq, entry) && v == handle_in(
                entry,
            ),
{
    let c = off_of(h);
    let (seq, entry) = choose|seq: u64, entry: Option<(u32, u64)>| #[trigger]
        crate::graph::looked_up(t0, t, c, s@, seq, entry) && v == handle_in(entry);
    let k = choose|k: int| t0.len() <= k && #[trigger] lookup(t, k, c, s@, seq, entry);
    assert(t0.len() <= k && lookup(t, k, c, s@, seq, entry));
}

/// A value that has been set is the one that was handed over: it was written onto the node that was
/// found under that very text, or onto a new one, which was linked to it.
pub proof fn law_set_wrote_the_value<M: Memory>(
    node: NodeRef,
    s: String,
    value: JsInput,
    m: &mut M,
    r: Result<(), ApiError>,
)
    requires
        set_gives(node, m, JsKey::Text(s), value, r),
        r is Ok,
    ensures
        exists|v: Value| #[trigger]
            kept_as(value, v) && wrote(
                old(m).trace(),
                final(m).trace(),
                off_of(node.handle),
                s@,
                v,
            ),
        disciplined(work_of(node.handle, None), old(m).trace(), final(m).trace()),
{
    reveal(set_gives);
    let t0 = old(m).trace();
    let t = final(m).trace();
    let c = off_of(node.handle);
    let v = choose|v: Value| #[trigger]
        stored_as(value, v) && scalar_stored(t0, t, node.handle, JsKey::Text(s), v);
    lemma_kept_as(value, v);
    if !(overwrites_found(t0, t, c, s@, v) && quiet(t0, t, c, s@, Some(v))) {
        let h = choose|h: u64| #[trigger]
            crate::graph::key_linked(t0, t, c, s@, h) && node_made(t0, t, h, v);
        lemma_links(t0, t, c, s@, h);
    }
    assert(wrote(t0, t, c, s@, v));
}

/// From `t0` to `t` the thread wrote `v` onto the node that it found under the key, or made a node
/// for it and linked that to the key. It claimed the container at most once.
pub open spec fn wrote(t0: Seq<Event>, t: Seq<Event>, c: u64, key: Seq<char>, v: Value) -> bool {
    &&& claims_once(t0, t, c, key, Some(v))
    &&& {
        ||| overwrites_found(t0, t, c, key, v) && quiet(t0, t, c, key, Some(v))
        ||| exists|h: u64, entry: Option<(u32, u64)>, i: int, k: int| #[trigger]
            links(t0, t, c, key, h, entry, i, k) && node_made(t0, t, h, v)
    }
}

proof fn lemma_links(t0: Seq<Event>, t: Seq<Event>, c: u64, key: Seq<char>, h: u64)
    requires
        crate::graph::key_linked(t0, t, c, key, h),
    ensures
        exists|entry: Option<(u32, u64)>, i: int, k: int| #[trigger]
            links(t0, t, c, key, h, entry, i, k),
{
}

/// A container that has been linked is the very one that was handed over, under that very text.
pub proof fn law_set_node_linked_the_node<M: Memory>(
    node: NodeRef,
    s: String,
    child: NodeRef,
    m: &mut M,
    r: Result<(), ApiError>,
)
    requires
        set_node_gives(node, m, JsKey::Text(s), child, r),
        r is Ok,
    ensures
        exists|entry: Option<(u32, u64)>, i: int, k: int| #[trigger]
            links(
                old(m).trace(),
                final(m).trace(),
                off_of(node.handle),
                s@,
                child.handle,
                entry,
                i,
                k,
            ),
        claims_once(old(m).trace(), final(m).trace(), off_of(node.handle), s@, None),
        disciplined(work_of(node.handle, Some(child.handle)), old(m).trace(), final(m).trace()),
{
    reveal(set_node_gives);
    lemma_links(
        old(m).trace(),
        final(m).trace(),
        off_of(node.handle),
        s@,
        child.handle,
    );
}

/// A text that has been deleted was found, and its place emptied; one that was not there was looked
/// up, and nothing done.
pub proof fn law_delete_emptied_the_place<M: Memory>(
    node: NodeRef,
    s: String,
    m: &mut M,
    was: bool,
)
    requires
        delete_gives(node, m, JsKey::Text(s), Ok(was)),
    ensures
        was ==> exists|used: bool, slot: u32, h: u64, i: int, k: int| #[trigger]
            empties(
                old(m).trace(),
                final(m).trace(),
                off_of(node.handle),
                s@,
                used,
                slot,
                h,
                i,
                k,
            ),
        !was ==> idle(old(m).trace(), final(m).trace()) && exists|k: int, seq: u64|
            old(m).trace().len() <= k && #[trigger] lookup(
                final(m).trace(),
                k,
                off_of(node.handle),
                s@,
                seq,
                None,
            ),
{
    reveal(delete_gives);
    let t0 = old(m).trace();
    let t = final(m).trace();
    let c = off_of(node.handle);
    if was {
        let used = choose|used: bool| #[trigger] crate::graph::key_emptied(t0, t, c, s@, used);
        let (slot, h, i, k) = choose|slot: u32, h: u64, i: int, k: int| #[trigger]
            empties(t0, t, c, s@, used, slot, h, i, k);
        assert(empties(t0, t, c, s@, used, slot, h, i, k));
    } else {
        let seq = choose|seq: u64| #[trigger] crate::graph::looked_up(t0, t, c, s@, seq, None);
        let k = choose|k: int| t0.len() <= k && #[trigger] lookup(t, k, c, s@, seq, None);
        assert(t0.len() <= k && lookup(t, k, c, s@, seq, None));
    }
}

/// An increment counted one number up, once, and gives what it left; it is the number under that
/// very text.
pub proof fn law_increment_counted_once<M: Memory>(node: NodeRef, s: String, m: &mut M, v: i64)
    requires
        increment_gives(node, m, JsKey::Text(s), Ok(v)),
    ensures
        exists|n: u64| #[trigger] counted_once(old(m).trace(), final(m).trace(), n, v),
        key_counted(old(m).trace(), final(m).trace(), off_of(node.handle), s@, v),
{
    reveal(increment_gives);
}

/// The keys that are listed were there under one version of the object or map.
pub proof fn law_keys_were_there<M: Memory>(node: NodeRef, m: &mut M, list: Vec<String>)
    requires
        keys_gives(node, m, Ok(list)),
    ensures
        exists|k: int| #[trigger]
            listed_from(old(m).trace(), final(m).trace(), off_of(node.handle), k, list@),
{
    reveal(keys_gives);
    let t0 = old(m).trace();
    let t = final(m).trace();
    let c = off_of(node.handle);
    let k = choose|k: int|
        t0.len() <= k && #[trigger] crate::graph::keys_listed(t, k, c, texts(list@));
    assert(listed_from(t0, t, c, k, list@));
}

/// From access `k` on the thread read the container at `c`, under one version: it has these keys in
/// every memory that answers like that.
pub open spec fn listed_from(
    t0: Seq<Event>,
    t: Seq<Event>,
    c: u64,
    k: int,
    list: Seq<String>,
) -> bool {
    &&& t0.len() <= k
    &&& stable_from(t, c, k)
    &&& forall|m: Seq<u64>| #[trigger]
        agrees(t.take(k), t, m) ==> texts(list) == keys_in(m, c as int, cap_of(m, c as int))
}

// Arrays.

/// The thread ended by reading index `i` of the array at `a`, and found the handle `h`: under one
/// version of the array, or nothing as the array has no such place.
pub open spec fn index_read(t0: Seq<Event>, t: Seq<Event>, a: u64, i: int, h: u64) -> bool {
    let k = t.len() - 1;
    ||| t0.len() <= k && loads(t, k, a + 8) && i >= seen(t, k) % 0x1_0000_0000 && h == 0
    ||| t0.len() <= k - 2 && stable_from(t, a, k - 2) && loads(t, k - 1, a + 40 + 8 * i) && seen(
        t,
        k - 1,
    ) == h
}

/// With its accesses up to `j` the thread read the index, and with those from `j` on the value that
/// the index leads to.
pub open spec fn index_then_read(
    t0: Seq<Event>,
    t: Seq<Event>,
    a: u64,
    i: int,
    j: int,
    h: u64,
    out: JsOutput,
) -> bool {
    0 <= j <= t.len() && index_read(t0, t.take(j), a, i, h) && shown_from(t, j, h, out)
}

/// The value that an index of an array shows has been read at that very index.
pub proof fn law_item_was_read<M: Memory>(node: NodeRef, i: i64, m: &mut M, out: JsOutput)
    requires
        i <= u32::MAX,
        get_value_gives(node, m, JsKey::Number(i), Ok(out)),
    ensures
        i >= 0,
        exists|j: int, h: u64| #[trigger]
            index_then_read(
                old(m).trace(),
                final(m).trace(),
                off_of(node.handle),
                i as int,
                j,
                h,
                out,
            ),
{
    reveal(get_value_gives);
    let t0 = old(m).trace();
    let t = final(m).trace();
    let (j, v) = choose|j: int, v: u64| #[trigger]
        key_then_shown(t0, t, node.handle, JsKey::Number(i), j, v, out@);
    lemma_shows(out@, out);
    assert(shown_from(t, j, v, out));
    assert(index_then_read(t0, t, off_of(node.handle), i as int, j, v, out));
}

/// A value that has been set at an index is the one that was handed over: a new node was made for
/// it, and written to that very index.
pub proof fn law_set_wrote_the_item<M: Memory>(
    node: NodeRef,
    i: i64,
    value: JsInput,
    m: &mut M,
    r: Result<(), ApiError>,
)
    requires
        i <= u32::MAX,
        set_gives(node, m, JsKey::Number(i), value, r),
        r is Ok,
    ensures
        i >= 0,
        exists|new: u64, v: Value| #[trigger]
            node_made(old(m).trace(), final(m).trace(), new, v) && kept_as(value, v)
                && item_written(
                old(m).trace(),
                final(m).trace(),
                off_of(node.handle),
                i as int,
                new,
            ),
{
    reveal(set_gives);
    let t0 = old(m).trace();
    let t = final(m).trace();
    let v = choose|v: Value| #[trigger]
        stored_as(value, v) && scalar_stored(t0, t, node.handle, JsKey::Number(i), v);
    lemma_kept_as(value, v);
    let new = choose|new: u64| #[trigger]
        item_stored(t0, t, off_of(node.handle), i as int, new, v);
    assert(node_made(t0, t, new, v));
}

/// A container that has been linked to an index is the very one that was handed over.
pub proof fn law_set_node_wrote_the_item<M: Memory>(
    node: NodeRef,
    i: i64,
    child: NodeRef,
    m: &mut M,
    r: Result<(), ApiError>,
)
    requires
        i <= u32::MAX,
        set_node_gives(node, m, JsKey::Number(i), child, r),
        r is Ok,
    ensures
        i >= 0,
        item_written(
            old(m).trace(),
            final(m).trace(),
            off_of(node.handle),
            i as int,
            child.handle,
        ),
{
    reveal(set_node_gives);
}

/// A value that has been appended is the one that was handed over: a new node was made for it, and
/// appended; the length that is given is the one that this left.
pub proof fn law_push_appended_the_value<M: Memory>(
    node: NodeRef,
    value: JsInput,
    m: &mut M,
    len: u32,
)
    requires
        push_gives(node, m, value, Ok(len)),
    ensures
        exists|new: u64, v: Value| #[trigger]
            node_made(old(m).trace(), final(m).trace(), new, v) && kept_as(value, v) && push_made(
                old(m).trace(),
                final(m).trace(),
                off_of(node.handle),
                new,
                Ok(len),
            ),
{
    reveal(push_gives);
    let t0 = old(m).trace();
    let t = final(m).trace();
    let (new, v) = choose|new: u64, v: Value| #[trigger]
        item_appended(t0, t, off_of(node.handle), new, v, len) && stored_as(value, v);
    lemma_kept_as(value, v);
    assert(node_made(t0, t, new, v));
}

/// A container that has been appended is the very one that was handed over.
pub proof fn law_push_node_appended_the_node<M: Memory>(
    node: NodeRef,
    child: NodeRef,
    m: &mut M,
    len: u32,
)
    requires
        push_node_gives(node, m, child, Ok(len)),
    ensures
        push_made(
            old(m).trace(),
            final(m).trace(),
            off_of(node.handle),
            child.handle,
            Ok(len),
        ),
{
    reveal(push_node_gives);
}

// Giving up.

/// A call gives up on a busy node only when it has waited as often as it may.
pub proof fn law_busy_only_after_waiting<M: Memory>(
    node: NodeRef,
    key: JsKey,
    k: &mut M,
    l: &mut M,
    m: &mut M,
    n: &mut M,
    value: Result<JsOutput, ApiError>,
    child: Result<Option<NodeRef>, ApiError>,
    has: Result<bool, ApiError>,
    keys: Result<Vec<String>, ApiError>,
)
    requires
        get_value_gives(node, k, key, value),
        get_node_gives(node, l, key, child),
        has_gives(node, m, key, has),
        keys_gives(node, n, keys),
    ensures
        value matches Err(e) ==> e == ApiError::Graph(GraphError::Busy) ==> final(k).patience()
            == 0,
        child matches Err(e) ==> e == ApiError::Graph(GraphError::Busy) ==> final(l).patience()
            == 0,
        has matches Err(e) ==> e == ApiError::Graph(GraphError::Busy) ==> final(m).patience() == 0,
        keys matches Err(e) ==> e == ApiError::Graph(GraphError::Busy) && final(n).patience() == 0,
{
    reveal(get_value_gives);
    reveal(get_node_gives);
    reveal(has_gives);
    reveal(keys_gives);
}

/// The length is read off the container, with the last access.
pub proof fn law_length_was_read<M: Memory>(node: NodeRef, m: &mut M, len: u32)
    requires
        length_gives(node, m, len),
    ensures
        ({
            let t = final(m).trace();
            let k = t.len() - 1;
            &&& old(m).trace().len() <= k
            &&& loads(t, k, off_of(node.handle) + 24)
            &&& len == seen(t, k) % 0x1_0000_0000
        }),
{
    reveal(length_gives);
}

/// The thread saw that there is no node for so many bytes.
pub open spec fn lacks(t0: Seq<Event>, t: Seq<Event>, n: nat) -> bool {
    !fits_a_node(n) || no_space(t0, t, node_bytes(n) as u64)
}

/// A value is refused only after waiting as often as allowed, or for a reason that was seen: the
/// object or map had no place left, or there was no space for the key or the value.
pub proof fn law_set_refused_for_a_reason<M: Memory>(
    node: NodeRef,
    s: String,
    value: JsInput,
    m: &mut M,
    e: ApiError,
)
    requires
        node.handle >> 56 != 2,
        value !is Other,
        set_gives(node, m, JsKey::Text(s), value, Err(e)),
        final(m).patience() > 0,
    ensures
        ({
            let t0 = old(m).trace();
            let t = final(m).trace();
            ||| e == ApiError::Graph(GraphError::ContainerFull) && full_found(
                t0,
                t,
                off_of(node.handle),
                s@,
            )
            ||| e == ApiError::Graph(GraphError::RegionFull) && (lacks(t0, t, encode_utf8(s@).len())
                || lacks(t0, t, bytes_of(value)))
        }),
{
    reveal(set_gives);
    lemma_kind_byte(node.handle);
    let t0 = old(m).trace();
    let t = final(m).trace();
    let v = choose|v: Value| #[trigger]
        stored_as(value, v) && scalar_refused(
            t0,
            t,
            node.handle,
            JsKey::Text(s),
            v,
            e,
            final(m).patience(),
        );
    lemma_bytes(value, v);
    if e == ApiError::Graph(GraphError::RegionFull) {
        let made = seq![Value::Str(s@), v];
        let i = choose|i: int| 0 <= i < made.len() && value_refused(t0, t, #[trigger] made[i]);
        assert(made[i] == Value::Str(s@) || made[i] == v);
    }
}

/// A container is refused only after waiting as often as allowed, or for a reason that was seen.
pub proof fn law_set_node_refused_for_a_reason<M: Memory>(
    node: NodeRef,
    s: String,
    child: NodeRef,
    m: &mut M,
    e: ApiError,
)
    requires
        node.handle >> 56 != 2,
        set_node_gives(node, m, JsKey::Text(s), child, Err(e)),
        final(m).patience() > 0,
    ensures
        ({
            let t0 = old(m).trace();
            let t = final(m).trace();
            ||| e == ApiError::Graph(GraphError::ContainerFull) && full_found(
                t0,
                t,
                off_of(node.handle),
                s@,
            )
            ||| e == ApiError::Graph(GraphError::RegionFull) && lacks(t0, t, encode_utf8(s@).len())
        }),
{
    reveal(set_node_gives);
    lemma_kind_byte(node.handle);
}

/// A value is not appended only after waiting as often as allowed, or for a reason that was seen:
/// the array had no place left, or there was no space for the value.
pub proof fn law_push_refused_for_a_reason<M: Memory>(
    node: NodeRef,
    value: JsInput,
    m: &mut M,
    e: ApiError,
)
    requires
        node.handle >> 56 == 2,
        value !is Other,
        push_gives(node, m, value, Err(e)),
        final(m).patience() > 0,
    ensures
        ({
            let t0 = old(m).trace();
            let t = final(m).trace();
            ||| e == ApiError::CapacityExceeded && lacks(t0, t, bytes_of(value))
            ||| e == ApiError::Graph(GraphError::ArrayFull) && exists|new: u64| #[trigger]
                push_made(t0, t, off_of(node.handle), new, Err(GraphError::ArrayFull))
        }),
{
    reveal(push_gives);
    lemma_kind_byte(node.handle);
    let v = choose|v: Value| #[trigger]
        stored_as(value, v) && append_refused(
            old(m).trace(),
            final(m).trace(),
            off_of(node.handle),
            v,
            e,
            final(m).patience(),
        );
    lemma_bytes(value, v);
}

/// An index is not set only after waiting as often as allowed, or for a reason that was seen: the
/// array has no place for the index, or there was no space for the value.
pub proof fn law_set_index_refused_for_a_reason<M: Memory>(
    node: NodeRef,
    i: i64,
    value: JsInput,
    m: &mut M,
    e: ApiError,
)
    requires
        node.handle >> 56 == 2,
        0 <= i <= u32::MAX,
        value !is Other,
        set_gives(node, m, JsKey::Number(i), value, Err(e)),
        final(m).patience() > 0,
    ensures
        ({
            let t0 = old(m).trace();
            let t = final(m).trace();
            let k = t.len() - 1;
            ||| e == ApiError::CapacityExceeded && lacks(t0, t, bytes_of(value))
            ||| e == ApiError::Graph(GraphError::ArrayFull) && t0.len() <= k && loads(
                t,
                k,
                off_of(node.handle) + 8,
            ) && i >= seen(t, k) % 0x1_0000_0000
        }),
{
    reveal(set_gives);
    lemma_kind_byte(node.handle);
    let v = choose|v: Value| #[trigger]
        stored_as(value, v) && scalar_refused(
            old(m).trace(),
            final(m).trace(),
            node.handle,
            JsKey::Number(i),
            v,
            e,
            final(m).patience(),
        );
    lemma_bytes(value, v);
}

/// An increment fails only after waiting as often as allowed, or for a reason that was seen; a text
/// is always deleted, unless the object or map was busy for that long.
pub proof fn law_other_changes_refused_for_a_reason<M: Memory>(
    node: NodeRef,
    s: String,
    m: &mut M,
    n: &mut M,
    count: Result<i64, ApiError>,
    gone: Result<bool, ApiError>,
)
    requires
        node.handle >> 56 != 2,
        increment_gives(node, m, JsKey::Text(s), count),
        delete_gives(node, n, JsKey::Text(s), gone),
    ensures
        count matches Err(e) ==> final(m).patience() > 0 ==> {
            let t0 = old(m).trace();
            let t = final(m).trace();
            ||| e == ApiError::Graph(GraphError::RegionFull) && lacks(t0, t, 8)
            ||| e == ApiError::Graph(GraphError::KeyDisappeared) && (full_found(
                t0,
                t,
                off_of(node.handle),
                s@,
            ) || lacks(t0, t, encode_utf8(s@).len()) || lacks(t0, t, 8))
        },
        gone matches Err(e) ==> e == ApiError::Graph(GraphError::Busy) && final(n).patience() == 0,
{
    reveal(increment_gives);
    reveal(delete_gives);
    lemma_kind_byte(node.handle);
}

/// A container is not created only after waiting as often as allowed, or because the thread saw
/// that there is no space for it.
pub proof fn law_creation_refused_for_a_reason<M: Memory>(
    region: SharedRegion,
    cap: u32,
    k: &mut M,
    l: &mut M,
    m: &mut M,
    n: &mut M,
    object: Result<NodeRef, ApiError>,
    array: Result<NodeRef, ApiError>,
    map: Result<NodeRef, ApiError>,
    root: Result<NodeRef, ApiError>,
)
    requires
        create_object_gives(region, k, cap, object),
        create_array_gives(region, l, cap, array),
        create_map_gives(region, m, cap, map),
        root_gives(region, n, root),
    ensures
        object matches Err(e) ==> e == ApiError::CapacityExceeded && (final(k).patience() == 0
            || no_space(old(k).trace(), final(k).trace(), container_bytes(false, cap) as u64)),
        array matches Err(e) ==> e == ApiError::CapacityExceeded && (final(l).patience() == 0
            || no_space(old(l).trace(), final(l).trace(), container_bytes(true, cap) as u64)),
        map matches Err(e) ==> e == ApiError::CapacityExceeded && (final(m).patience() == 0
            || no_space(old(m).trace(), final(m).trace(), container_bytes(false, cap) as u64)),
        root matches Err(e) ==> e == ApiError::RootFull && (final(n).patience() == 0 || no_space(
            old(n).trace(),
            final(n).trace(),
            296,
        )),
{
    reveal(create_object_gives);
    reveal(create_array_gives);
    reveal(create_map_gives);
    reveal(root_gives);
}

} // verus!
