//! The order of keys: as long as nothing is deleted, keys are listed in the order in which they
//! were first put.
use crate::effects::{
    lemma_counted, lemma_handle_put, lemma_scalar_put, others_kept, overwritten, placed,
};
use crate::frames::lemma_slot_unique;
use crate::laws::{law_keys_are_listed, law_new_container};
use crate::layout::{
    cap_of, count_of, is_table, key_at, key_bytes, lemma_node, lemma_used_key, live, not_a_key, wf,
};
use crate::node::{text_of, value_at, with_container};
use crate::tables::{
    counted, handle_for, handle_put, keys_in, lemma_container_not_a_key, lemma_free_from,
    lemma_slot_from, scalar_put, slot_of, value_put,
};
use crate::value::{container_kind, kind_of, off_of, Value, H_INVALID, KIND_ARRAY, KIND_INT};
use vstd::prelude::*;
use vstd::utf8::{
    decode_utf8_encode_utf8, encode_utf8, encode_utf8_decode_utf8, encode_utf8_valid_utf8,
};

verus! {

/// The slots in use of the object or map at `c` are the first ones.
pub open spec fn packed(ws: Seq<u64>, c: int) -> bool {
    forall|i: int|
        0 <= i < cap_of(ws, c) ==> (#[trigger] key_at(ws, c, i) != H_INVALID) == (i < count_of(
            ws,
            c,
        ))
}

/// The keys of the object or map at `c`, as they are listed.
pub open spec fn listed(ws: Seq<u64>, c: int) -> Seq<Seq<char>> {
    keys_in(ws, c, cap_of(ws, c))
}

/// A way to set a key: to a scalar, to a node, to the value behind a handle, or by counting it up.
pub ghost enum Put {
    Scalar(Value),
    Node(u64),
    Copy(u64),
    Count,
}

impl Put {
    /// Whether setting `key` of the object or map at `c` like that is done, and what becomes of the
    /// memory.
    pub open spec fn done(self, ws: Seq<u64>, c: int, key: Seq<char>) -> (bool, Seq<u64>) {
        match self {
            Put::Scalar(v) => (scalar_put(ws, c, key, v).0 is Ok, scalar_put(ws, c, key, v).1),
            Put::Node(h) => (handle_put(ws, c, key, h).0 is Ok, handle_put(ws, c, key, h).1),
            Put::Copy(h) => (value_put(ws, c, key, h).0 is Ok, value_put(ws, c, key, h).1),
            Put::Count => (counted(ws, c, key).0 is Ok, counted(ws, c, key).1),
        }
    }

    /// What the key is set to is there.
    pub open spec fn valid(self, ws: Seq<u64>) -> bool {
        match self {
            Put::Scalar(v) => !v.is_container(),
            Put::Node(h) => live(ws, h) && not_a_key(ws, off_of(h) as int),
            Put::Copy(h) => container_kind(kind_of(h)) ==> live(ws, h),
            Put::Count => true,
        }
    }
}

/// The list of keys after `key` has been set, if that was done.
pub open spec fn after_put(keys: Seq<Seq<char>>, key: Seq<char>, done: bool) -> Seq<Seq<char>> {
    if done && !keys.contains(key) {
        keys.push(key)
    } else {
        keys
    }
}

/// The text of a slot in use is found in that slot.
proof fn lemma_own_slot(ws: Seq<u64>, c: int, i: int)
    requires
        wf(ws),
        is_table(ws, c),
        0 <= i < cap_of(ws, c),
        key_at(ws, c, i) != H_INVALID,
    ensures
        slot_of(ws, c, text_of(key_bytes(ws, c, i))) == Some(i),
{
    lemma_used_key(ws, c, i);
    decode_utf8_encode_utf8(key_bytes(ws, c, i));
    lemma_slot_unique(ws, c, i, text_of(key_bytes(ws, c, i)));
}

/// The slot that a key is found in has that key as its text.
proof fn lemma_found_text(ws: Seq<u64>, c: int, key: Seq<char>)
    ensures
        slot_of(ws, c, key) matches Some(i) ==> 0 <= i < cap_of(ws, c) && key_at(ws, c, i)
            != H_INVALID && text_of(key_bytes(ws, c, i)) == key,
{
    lemma_slot_from(ws, c, encode_utf8(key), 0, cap_of(ws, c));
    encode_utf8_valid_utf8(key);
    encode_utf8_decode_utf8(key);
}

/// Without gaps, the keys are listed by their slots.
proof fn lemma_packed_keys(ws: Seq<u64>, c: int, n: int)
    requires
        wf(ws),
        is_table(ws, c),
        packed(ws, c),
        0 <= n <= cap_of(ws, c),
    ensures
        keys_in(ws, c, n).len() == if n <= count_of(ws, c) {
            n
        } else {
            count_of(ws, c) as int
        },
        forall|i: int|
            0 <= i < keys_in(ws, c, n).len() ==> #[trigger] keys_in(ws, c, n)[i] == text_of(
                key_bytes(ws, c, i),
            ),
    decreases n,
{
    if n > 0 {
        lemma_packed_keys(ws, c, n - 1);
        assert((key_at(ws, c, n - 1) != H_INVALID) == (n - 1 < count_of(ws, c)));
        if key_at(ws, c, n - 1) != H_INVALID {
            lemma_used_key(ws, c, n - 1);
        }
    }
}

/// A new object or map has no gaps, and no keys.
pub proof fn law_new_container_is_packed(ws: Seq<u64>, tag: u8, cap: u32)
    requires
        wf(ws),
        container_kind(tag),
        tag != KIND_ARRAY,
    ensures
        with_container(ws, tag, cap) matches (Some(h), xs) ==> packed(xs, off_of(h) as int)
            && listed(xs, off_of(h) as int) == Seq::<Seq<char>>::empty(),
{
    law_new_container(ws, tag, cap);
    if let (Some(h), xs) = with_container(ws, tag, cap) {
        let c = off_of(h) as int;
        assert(is_table(xs, c));
        assert forall|i: int| 0 <= i < cap_of(xs, c) implies (#[trigger] key_at(xs, c, i)
            != H_INVALID) == (i < count_of(xs, c)) by {
            if key_at(xs, c, i) != H_INVALID {
                lemma_own_slot(xs, c, i);
                assert(slot_of(xs, c, text_of(key_bytes(xs, c, i))) is None);
            }
        }
        lemma_packed_keys(xs, c, cap_of(xs, c));
        assert(listed(xs, c) =~= Seq::<Seq<char>>::empty());
    }
}

/// What the order of keys needs of a step.
proof fn lemma_order_step(
    ws: Seq<u64>,
    xs: Seq<u64>,
    c: int,
    key: Seq<char>,
    n: int,
    done: bool,
)
    requires
        wf(ws),
        is_table(ws, c),
        packed(ws, c),
        others_kept(ws, xs, c, key, n),
        done ==> slot_of(xs, c, key) is Some && slot_of(xs, c, key) == placed(ws, c, key),
        !done ==> slot_of(xs, c, key) == slot_of(ws, c, key),
        count_of(xs, c) == count_of(ws, c) + if done && slot_of(ws, c, key) is None {
            1int
        } else {
            0
        },
    ensures
        packed(xs, c),
        listed(xs, c) == after_put(listed(ws, c), key, done),
{
    let cap = cap_of(ws, c);
    let count = count_of(ws, c) as int;
    let new = done && slot_of(ws, c, key) is None;
    lemma_node(ws, c);
    law_keys_are_listed(ws, c, key);
    lemma_packed_keys(ws, c, cap);
    lemma_found_text(ws, c, key);
    lemma_found_text(xs, c, key);
    lemma_free_from(ws, c, 0, cap);
    if new {
        let s = placed(ws, c, key).unwrap();
        assert((key_at(ws, c, s) != H_INVALID) == (s < count));
        if s > count {
            assert(key_at(ws, c, count) != H_INVALID);
        }
        assert(s == count);
    }
    assert forall|i: int| 0 <= i < cap implies (#[trigger] key_at(xs, c, i) != H_INVALID) == (i
        < count_of(xs, c)) by {
        if key_at(xs, c, i) != H_INVALID {
            let text = text_of(key_bytes(xs, c, i));
            lemma_own_slot(xs, c, i);
            lemma_found_text(ws, c, text);
            if text != key {
                assert(handle_for(xs, c, text) == handle_for(ws, c, text));
            }
        } else if i < count_of(xs, c) {
            if i < count {
                lemma_slot_kept(ws, xs, c, key, n, i);
            }
        }
    }
    lemma_packed_keys(xs, c, cap);
    assert(listed(xs, c) =~= after_put(listed(ws, c), key, done)) by {
        assert forall|i: int| 0 <= i < count implies #[trigger] listed(xs, c)[i] == listed(
            ws,
            c,
        )[i] by {
            assert(key_at(ws, c, i) != H_INVALID);
            lemma_slot_kept(ws, xs, c, key, n, i);
        }
    }
}

/// A slot in use keeps its text.
proof fn lemma_slot_kept(ws: Seq<u64>, xs: Seq<u64>, c: int, key: Seq<char>, n: int, i: int)
    requires
        wf(ws),
        is_table(ws, c),
        others_kept(ws, xs, c, key, n),
        0 <= i < cap_of(ws, c),
        key_at(ws, c, i) != H_INVALID,
        slot_of(ws, c, key) is Some ==> slot_of(xs, c, key) == slot_of(ws, c, key),
    ensures
        key_at(xs, c, i) != H_INVALID,
        text_of(key_bytes(xs, c, i)) == text_of(key_bytes(ws, c, i)),
{
    let text = text_of(key_bytes(ws, c, i));
    lemma_own_slot(ws, c, i);
    if text != key {
        assert(handle_for(xs, c, text) == handle_for(ws, c, text));
    }
    lemma_found_text(xs, c, text);
}

/// Setting a key keeps the order: a key that is new is listed last, one that is there stays where
/// it is, and so do all others. No gaps come up.
pub proof fn law_put_keeps_the_order(ws: Seq<u64>, c: int, key: Seq<char>, put: Put)
    requires
        wf(ws),
        is_table(ws, c),
        packed(ws, c),
        put.valid(ws),
    ensures
        wf(put.done(ws, c, key).1),
        is_table(put.done(ws, c, key).1, c),
        packed(put.done(ws, c, key).1, c),
        listed(put.done(ws, c, key).1, c) == after_put(
            listed(ws, c),
            key,
            put.done(ws, c, key).0,
        ),
{
    let (done, xs) = put.done(ws, c, key);
    match put {
        Put::Scalar(v) => {
            lemma_scalar_put(ws, c, key, v);
            let n = overwritten(ws, c, key, v);
            lemma_order_step(ws, xs, c, key, n, done);
        },
        Put::Node(h) => {
            lemma_handle_put(ws, c, key, h);
            lemma_order_step(ws, xs, c, key, -1, done);
        },
        Put::Copy(h) => {
            if container_kind(kind_of(h)) {
                lemma_container_not_a_key(ws, h);
                lemma_handle_put(ws, c, key, h);
                lemma_order_step(ws, xs, c, key, -1, done);
            } else {
                let v = value_at(ws, h);
                lemma_scalar_put(ws, c, key, v);
                let n = overwritten(ws, c, key, v);
                lemma_order_step(ws, xs, c, key, n, done);
            }
        },
        Put::Count => {
            lemma_counted(ws, c, key);
            let h = handle_for(ws, c, key);
            let n = if slot_of(ws, c, key) is Some && kind_of(h) == KIND_INT {
                off_of(h) as int
            } else {
                -1
            };
            lemma_order_step(ws, xs, c, key, n, done);
        },
    }
}

/// `states` are the memories that come about when `keys` of the object or map at `c` are set, one
/// after the other, as `puts` say.
pub open spec fn run_of_puts(
    states: Seq<Seq<u64>>,
    c: int,
    keys: Seq<Seq<char>>,
    puts: Seq<Put>,
) -> bool {
    &&& states.len() == puts.len() + 1
    &&& keys.len() == puts.len()
    &&& forall|i: int|
        0 <= i < puts.len() ==> (#[trigger] puts[i]).valid(states[i]) && states[i + 1]
            == puts[i].done(states[i], c, keys[i]).1
}

/// The keys that were there, and behind them the first `n` of `keys`, each where it was first put;
/// those that could not be put are left out.
pub open spec fn first_puts(
    states: Seq<Seq<u64>>,
    c: int,
    keys: Seq<Seq<char>>,
    puts: Seq<Put>,
    n: int,
) -> Seq<Seq<char>>
    decreases n,
{
    if n <= 0 {
        listed(states[0], c)
    } else {
        after_put(
            first_puts(states, c, keys, puts, n - 1),
            keys[n - 1],
            puts[n - 1].done(states[n - 1], c, keys[n - 1]).0,
        )
    }
}

/// Keys are listed in the order in which they were first put, each of them once, as long as nothing
/// is deleted; and as many as the length says.
pub proof fn law_keys_in_order_of_first_puts(
    states: Seq<Seq<u64>>,
    c: int,
    keys: Seq<Seq<char>>,
    puts: Seq<Put>,
)
    requires
        run_of_puts(states, c, keys, puts),
        wf(states[0]),
        is_table(states[0], c),
        packed(states[0], c),
    ensures
        listed(states.last(), c) == first_puts(states, c, keys, puts, puts.len() as int),
        listed(states.last(), c).no_duplicates(),
        listed(states.last(), c).len() == count_of(states.last(), c),
{
    lemma_first_puts(states, c, keys, puts, puts.len() as int);
    law_keys_are_listed(states.last(), c, Seq::empty());
}

proof fn lemma_first_puts(
    states: Seq<Seq<u64>>,
    c: int,
    keys: Seq<Seq<char>>,
    puts: Seq<Put>,
    n: int,
)
    requires
        run_of_puts(states, c, keys, puts),
        wf(states[0]),
        is_table(states[0], c),
        packed(states[0], c),
        0 <= n <= puts.len(),
    ensures
        wf(states[n]),
        is_table(states[n], c),
        packed(states[n], c),
        listed(states[n], c) == first_puts(states, c, keys, puts, n),
    decreases n,
{
    if n > 0 {
        lemma_first_puts(states, c, keys, puts, n - 1);
        assert(puts[n - 1].valid(states[n - 1]));
        law_put_keeps_the_order(states[n - 1], c, keys[n - 1], puts[n - 1]);
    }
}

} // verus!
