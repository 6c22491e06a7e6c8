//! New nodes and new keys, whatever the other threads do.
//!
//! A node that a thread has made holds what the thread wrote to it, as long as the others keep out
//! of it. A key that a thread has put is found by whoever puts it next, so that it is there once.
use crate::arena::SIZE_HEADER;
use crate::graph::{claims_lookup, found_in, links};
use crate::history::{
    after, changes, coherent, comes_after, guarded, lemma_after_len, lemma_effect,
    lemma_guarded_prefix, lemma_place, lemma_place_order, lemma_thread_grows, lemma_thread_prefix,
    of_thread, place, Step,
};
use crate::layout::{
    cap_of, count_of, key_at, lemma_payload_len, lemma_payload_value, seq_of, slot_off,
};
use crate::linear::{
    before_last, inserts, law_insert_is_one_step, lemma_found_at_claim, makes_elsewhere, makes_key,
    texts_stay,
};
use crate::memory::{in_words, lemma_word_put, put, word, Event};
use crate::node::{node_header, str_bytes, value_at, NODE_HDR, STORE_LIMIT};
use crate::record::{
    ends_with, entry_stores, entry_written, free_seen, header_stores, node_made, node_stores,
    slot_known, store, stores,
};
use crate::tables::{has_key_at, lemma_slot_from, one_up, slot_of, with_entry};
use crate::trace::{bumped, claimed};
use crate::value::{kind_of, off_of, Value, H_INVALID, KIND_STR, OFFSET_LIMIT};
use crate::words::{halves, lemma_halves, lower};
use vstd::prelude::*;
use vstd::utf8::encode_utf8;

verus! {

/// A word that is not changed stays as it is.
proof fn lemma_unchanged(ws: Seq<u64>, h: Seq<Step>, off: int, i: int, j: int)
    requires
        0 <= i <= j <= h.len(),
        forall|x: int| i <= x < j ==> !#[trigger] changes(h[x].event, off),
    ensures
        word(after(ws, h.take(j)), off) == word(after(ws, h.take(i)), off),
    decreases j - i,
{
    if i < j {
        lemma_unchanged(ws, h, off, i, j - 1);
        assert(h.take(j).drop_last() =~= h.take(j - 1));
        assert(!changes(h[j - 1].event, off));
        lemma_effect(after(ws, h.take(j - 1)), h[j - 1].event, off);
    }
}

/// What is written last stays.
proof fn lemma_written_stays(ws: Seq<u64>, h: Seq<Step>, i: int, off: int, val: u64)
    requires
        0 <= i < h.len(),
        in_words(ws, off),
        0 <= off <= u64::MAX,
        h[i].event == store(off, val),
        forall|x: int| i < x < h.len() ==> !#[trigger] changes(h[x].event, off),
    ensures
        word(after(ws, h), off) == val,
{
    assert(h.take(i + 1).drop_last() =~= h.take(i));
    lemma_after_len(ws, h.take(i));
    lemma_effect(after(ws, h.take(i)), h[i].event, off);
    lemma_unchanged(ws, h, off, i + 1, h.len() as int);
    assert(h.take(h.len() as int) =~= h);
}

/// From access `j` of thread `p` on nobody changes the words from `lo` to `hi`, but for the thread
/// itself with its accesses before `i`.
pub open spec fn left_alone(h: Seq<Step>, p: int, lo: int, hi: int, j: int, i: int) -> bool {
    forall|x: int, off: int|
        place(h, p, j) <= x < h.len() && lo <= off < hi && !(h[x].thread == p && of_thread(
            h.take(x),
            p,
        ).len() < i) ==> !#[trigger] changes(h[x].event, off)
}

/// What a thread did at some moment is the access that is its turn.
pub(crate) proof fn lemma_turn(h: Seq<Step>, p: int, x: int)
    requires
        0 <= x < h.len(),
        h[x].thread == p,
    ensures
        of_thread(h.take(x), p).len() < of_thread(h, p).len(),
        of_thread(h, p)[of_thread(h.take(x), p).len() as int] == h[x].event,
{
    let n = of_thread(h.take(x), p).len() as int;
    lemma_thread_prefix(h, p, x + 1);
    assert(h.take(x + 1).drop_last() =~= h.take(x));
    assert(of_thread(h.take(x + 1), p) =~= of_thread(h.take(x), p).push(h[x].event));
    assert(of_thread(h, p).take(n + 1)[n] == h[x].event);
}

/// One word of a node that a thread has made.
proof fn lemma_made_word(
    ws: Seq<u64>,
    h: Seq<Step>,
    p: int,
    lo: int,
    hi: int,
    j: int,
    i: int,
    y: int,
    off: int,
    val: u64,
)
    requires
        coherent(ws, h),
        0 <= j <= y < i <= of_thread(h, p).len(),
        left_alone(h, p, lo, hi, j, i),
        lo <= off < hi,
        0 <= off <= u64::MAX,
        in_words(ws, off),
        of_thread(h, p)[y] == store(off, val),
        forall|z: int| y < z < i ==> !#[trigger] changes(of_thread(h, p)[z], off),
    ensures
        word(after(ws, h), off) == val,
{
    let at = place(h, p, y);
    lemma_place(ws, h, p, y);
    lemma_place(ws, h, p, j);
    lemma_place_order(ws, h, p, j, y);
    assert forall|x: int| at < x < h.len() implies !#[trigger] changes(h[x].event, off) by {
        if h[x].thread == p {
            lemma_turn(h, p, x);
            lemma_thread_grows(h, p, at, x);
            let z = of_thread(h.take(x), p).len() as int;
            if z < i {
                assert(!changes(of_thread(h, p)[z], off));
            }
        }
    }
    lemma_written_stays(ws, h, at, off, val);
}

/// A node that a thread has made, with its accesses up to `i`, holds what the thread made it for,
/// as long as nobody writes to it.
#[verifier::rlimit(60)]
#[verifier::spinoff_prover]
pub proof fn law_made_node_holds(
    ws: Seq<u64>,
    h: Seq<Step>,
    p: int,
    t0: Seq<Event>,
    g: u64,
    v: Value,
    i: int,
)
    requires
        coherent(ws, h),
        0 <= i <= of_thread(h, p).len(),
        !v.is_container(),
        v.store() <= STORE_LIMIT,
        g != H_INVALID,
        kind_of(g) == v.kind(),
        off_of(g) % 8 == 0,
        off_of(g) + NODE_HDR + v.size() <= 8 * ws.len(),
        off_of(g) + NODE_HDR + v.size() <= u64::MAX,
        ends_with(t0, of_thread(h, p).take(i), node_stores(off_of(g) as int, v)),
        left_alone(
            h,
            p,
            off_of(g) as int,
            off_of(g) + NODE_HDR + v.size(),
            i - node_stores(off_of(g) as int, v).len(),
            i,
        ),
    ensures
        value_at(after(ws, h), g) == v,
        v matches Value::Str(text) ==> str_bytes(after(ws, h), off_of(g) as int) == encode_utf8(
            text,
        ),
{
    let t = of_thread(h, p);
    let n = off_of(g) as int;
    let s = node_stores(n, v);
    let head = header_stores(
        n,
        v.kind(),
        v.size() as u32,
        v.store() as u32,
        lower((NODE_HDR + v.size()) as u64),
    );
    let tail = stores(n + NODE_HDR, v.payload());
    let j = i - s.len();
    let hi = n + NODE_HDR + v.size();
    lemma_payload_len(v);
    assert(s == head + tail);
    assert forall|y: int| 0 <= y < s.len() implies #[trigger] s[y] == t[j + y] by {
        assert(t.take(i).skip(j)[y] == t[j + y]);
    }
    assert forall|y: int| 0 <= y < v.payload().len() implies #[trigger] v.payload()[y] == word(
        after(ws, h),
        n + NODE_HDR + 8 * y,
    ) by {
        let off = n + NODE_HDR + 8 * y;
        assert(s[4 + y] == tail[y]);
        assert(t[j + 4 + y] == s[4 + y]);
        assert forall|z: int| j + 4 + y < z < i implies !#[trigger] changes(t[z], off) by {
            assert(s[z - j] == t[z]);
            assert(s[z - j] == tail[z - j - 4]);
        }
        lemma_made_word(ws, h, p, n, hi, j, i, j + 4 + y, off, v.payload()[y]);
    }
    assert(s[1] == head[1] && t[j + 1] == s[1]);
    assert forall|z: int| j + 1 < z < i implies !#[trigger] changes(t[z], n + 8) by {
        assert(s[z - j] == t[z]);
        if z - j >= 4 {
            assert(s[z - j] == tail[z - j - 4]);
        } else {
            assert(s[z - j] == head[z - j]);
        }
    }
    let sizes = halves(v.size() as u32, v.store() as u32);
    lemma_made_word(ws, h, p, n, hi, j, i, j + 1, n + 8, sizes);
    lemma_halves(v.size() as u32, v.store() as u32);
    assert(node_header(after(ws, h), n).store == v.store());
    lemma_payload_value(after(ws, h), g, v);
}

/// The node of the text `key` that the thread made after its access `k`, and linked with the fifth
/// of its last accesses, holds that text in the memory `ms`.
pub open spec fn key_text_stays(t: Seq<Event>, k: int, key: Seq<char>, ms: Seq<u64>) -> bool {
    forall|off: int, g: u64| #[trigger]
        makes_key(t, k, off, key, g) ==> str_bytes(ms, off_of(g) as int) == encode_utf8(key)
}

/// A key is inserted once: if thread `p` has inserted `key` into the object or map at `c`, and has
/// released it with step `e - 1` of the history, and thread `q` claims the node later, with its
/// access `kq`, for what it had looked up under the same key, then it has found the key there, if
/// nobody has changed the node in between. So of two threads that put a key which is absent, the
/// one that comes second sets the value of the key that the first one has inserted. (What the
/// threads read elsewhere, the texts of keys, is supposed not to have changed, and the nodes that
/// they made to lie elsewhere.)
#[verifier::rlimit(60)]
#[verifier::spinoff_prover]
pub proof fn law_key_is_inserted_once(
    ws: Seq<u64>,
    h: Seq<Step>,
    c: u64,
    hi: int,
    key: Seq<char>,
    e: int,
    p: int,
    t0p: Seq<Event>,
    child: u64,
    ip: int,
    kp: int,
    q: int,
    t0q: Seq<Event>,
    entry: Option<(u32, u64)>,
    iq: int,
    kq: int,
    since: int,
)
    requires
        guarded(ws, h, c, hi, since),
        since <= e,
        comes_after(h.take(e), p, since, t0p.len() as int),
        comes_after(h, q, since, t0q.len() as int),
        h.len() <= u64::MAX,
        SIZE_HEADER <= c,
        c % 8 == 0,
        0 < e <= h.len(),
        place(h.take(e), p, of_thread(h.take(e), p).len() - 1) == e - 1,
        links(t0p, of_thread(h.take(e), p), c, key, child, None, ip, kp),
        texts_stay(ws, h.take(e), c, hi, p, t0p, ip, kp),
        makes_elsewhere(of_thread(h.take(e), p), kp, c, hi),
        c + NODE_HDR + 16 * cap_of(
            after(ws, h.take(e).take(place(h.take(e), p, kp))),
            c as int,
        ) <= hi <= 8 * ws.len(),
        claims_lookup(t0q, of_thread(h, q), c, key, entry, iq, kq),
        texts_stay(ws, h, c, hi, q, t0q, iq, kq),
        e <= place(h, q, kq),
        forall|x: int, off: int|
            e <= x < place(h, q, kq) && c < off < hi ==> !#[trigger] changes(h[x].event, off),
        key_text_stays(
            of_thread(h.take(e), p),
            kp,
            key,
            after(ws, h.take(place(h, q, kq))),
        ),
    ensures
        entry is Some,
{
    let h1 = h.take(e);
    let t = of_thread(h1, p);
    let ci = c as int;
    let at_claim = after(ws, h1.take(place(h1, p, kp)));
    let now = after(ws, h.take(place(h, q, kq)));
    lemma_guarded_prefix(ws, h, c, hi, e, since);
    law_insert_is_one_step(ws, h1, c, hi, p, t0p, key, child, ip, kp, since);
    let (slot, kh) = choose|slot: u32, kh: u64| #[trigger]
        inserts(ws, h1, c, hi, p, kp, key, child, slot, kh);
    let i = slot as int;
    let xs = with_entry(at_claim, ci, i, kh, child);
    let released = after(ws, h.take(e));
    lemma_place(ws, h, q, kq);
    lemma_place(ws, h1, p, t.len() - 1);
    assert(h1.take(e - 1) =~= h.take(e - 1));
    assert(before_last(ws, h1, p) == after(ws, h.take(e - 1)));
    lemma_after_len(ws, h1.take(place(h1, p, kp)));
    // What the node holds when the other thread claims it.
    assert forall|off: int| c < off < hi && off != c + 16 implies #[trigger] word(now, off) == word(
        xs,
        off,
    ) by {
        assert(h.take(e).drop_last() =~= h.take(e - 1));
        lemma_effect(after(ws, h.take(e - 1)), h[e - 1].event, off);
        assert(h1[e - 1] == h[e - 1]);
        lemma_release_elsewhere(h1, p, c, key, child, t0p, ip, kp, off);
        lemma_unchanged(ws, h, off, e, place(h, q, kq));
    }
    let y1 = put(at_claim, slot_off(ci, i), kh);
    let y2 = put(y1, slot_off(ci, i) + 8, child);
    let y3 = put(y2, ci + 24, one_up(count_of(at_claim, ci)));
    lemma_word_put(at_claim, slot_off(ci, i), kh, slot_off(ci, i));
    lemma_word_put(y1, slot_off(ci, i) + 8, child, slot_off(ci, i));
    lemma_word_put(y2, ci + 24, one_up(count_of(at_claim, ci)), slot_off(ci, i));
    lemma_word_put(y3, ci + 16, bumped(seq_of(y3, ci)), slot_off(ci, i));
    assert(key_at(now, ci, i) == kh);
    lemma_word_put(at_claim, slot_off(ci, i), kh, ci + 8);
    lemma_word_put(y1, slot_off(ci, i) + 8, child, ci + 8);
    lemma_word_put(y2, ci + 24, one_up(count_of(at_claim, ci)), ci + 8);
    lemma_word_put(y3, ci + 16, bumped(seq_of(y3, ci)), ci + 8);
    assert(cap_of(now, ci) == cap_of(at_claim, ci));
    assert(kind_of(kh) == KIND_STR);
    assert(has_key_at(now, ci, i, encode_utf8(key)));
    lemma_slot_from(now, ci, encode_utf8(key), 0, cap_of(now, ci));
    assert(slot_of(now, ci, key) is Some);
    lemma_found_at_claim(ws, h, c, hi, q, t0q, key, entry, iq, kq, since);
    assert(found_in(now, c, key, entry));
}

/// The release of an object or map into which a key was inserted changes its version alone.
pub(crate) proof fn lemma_release_elsewhere(
    h: Seq<Step>,
    p: int,
    c: u64,
    key: Seq<char>,
    child: u64,
    t0: Seq<Event>,
    i: int,
    k: int,
    off: int,
)
    requires
        links(t0, of_thread(h, p), c, key, child, None, i, k),
        off != c + 16,
        c < OFFSET_LIMIT,
    ensures
        !changes(of_thread(h, p).last(), off),
{
    let t = of_thread(h, p);
    let seq = claimed(t, k);
    let t1 = t.take(k + 1);
    let (slot, kh) = choose|slot: u32, kh: u64| #[trigger]
        entry_written(t1, t, c, slot, kh, child, seq) && slot_known(t1, t, c, slot) && free_seen(
            t1,
            t,
            c,
            slot,
        ) && node_made(t1, t, kh, Value::Str(key));
    let count = choose|count: u64|
        ends_with(t1, t, #[trigger] entry_stores(c, slot, kh, child, count, seq));
    let filled = entry_stores(c, slot, kh, child, count, seq);
    assert(t.skip(t.len() - 5)[4] == t[t.len() - 1]);
    assert(filled[4] == t.last());
}

} // verus!
