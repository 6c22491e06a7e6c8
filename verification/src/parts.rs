//! Words, headers and bytes: where the parts of a region are.
//!
//! As in `exchange`, the laws speak of the calls themselves.
use crate::arena::{alloc_aligned, dealloc, RegionHeader};
use crate::laws::law_freed_block_is_reused;
use crate::memory::{exchanged, loaded, stored, LocalMemory, Memory, SharedMemory};
use crate::node::{claim, commit, header, load_cap, NodeHeader};
use crate::words::{byte_of, join_halves, lower_half, pack_word, unpack_word, upper_half};
use vstd::arithmetic::power::pow;
use vstd::prelude::*;

verus! {

/// A word is its halves, and the halves make the word.
pub proof fn law_halves(w: u64, lo: u32, hi: u32, back: u64)
    requires
        call_ensures(lower_half, (w,), lo),
        call_ensures(upper_half, (w,), hi),
        call_ensures(join_halves, (lo, hi), back),
    ensures
        w == lo + 0x1_0000_0000 * hi,
        back == w,
{
}

/// Where the words of the region header are.
pub proof fn law_region_header<M: Memory>(m: &mut M, hdr: RegionHeader)
    requires
        call_ensures(RegionHeader::from_base::<M>, (m,), hdr),
        old(m).words().len() >= 6,
        final(m).undisturbed(),
    ensures
        ({
            let ws = old(m).words();
            &&& hdr.init_state == ws[0] % 0x1_0000_0000
            &&& hdr.backend == ws[0] / 0x1_0000_0000
            &&& hdr.capacity == ws[1]
            &&& hdr.bump == ws[2]
            &&& hdr.free_top == ws[3]
            &&& hdr.root == ws[4]
            &&& hdr._pad == ws[5]
        }),
        final(m).words() == old(m).words(),
{
}

/// Where the parts of the header of a node are.
pub proof fn law_node_header<M: Memory>(
    off: u64,
    k: int,
    m: &mut M,
    n: &mut M,
    hdr: NodeHeader,
    cap: u32,
)
    requires
        off == 8 * k,
        k + 4 <= old(m).words().len(),
        call_ensures(header::<M>, (m, off), hdr),
        *old(n) == *final(m),
        call_ensures(load_cap::<M>, (n, off), cap),
        final(n).undisturbed(),
    ensures
        ({
            let ws = old(m).words();
            &&& hdr.tag == ws[k] % 256
            &&& hdr.node_size == ws[k] / 0x1_0000_0000
            &&& hdr.cap == ws[k + 1] % 0x1_0000_0000
            &&& hdr.store == ws[k + 1] / 0x1_0000_0000
            &&& hdr.seqlock == ws[k + 2]
            &&& hdr.count == ws[k + 3]
            &&& cap == hdr.cap
        }),
        final(n).words() == old(m).words(),
{
}

/// A byte of a word is what is left of the word without the bytes below it and above.
proof fn lemma_byte(w: nat, k: nat)
    ensures
        byte_of(w, k) == (w as int / pow(256, k)) % 256,
    decreases k,
{
    reveal(pow);
    if k > 0 {
        lemma_byte(w / 256, (k - 1) as nat);
        vstd::arithmetic::power::lemma_pow_positive(256, (k - 1) as nat);
        vstd::arithmetic::div_mod::lemma_div_denominator(
            w as int,
            256,
            pow(256, (k - 1) as nat),
        );
    }
}

/// A word holds eight bytes, the first one lowest; and they come out of it as they went in.
pub proof fn law_bytes_of_words(b: &[u8], i: usize, w: u64, out: &mut Vec<u8>, n: usize, k: nat)
    requires
        n <= 8,
        n > 0,
        8 * i + n <= b@.len(),
        k < n,
        call_ensures(pack_word, (b, i), w),
        call_ensures(unpack_word, (out, w, n), ()),
    ensures
        b@[8 * i + k] == (w as int / pow(256, k)) % 256,
        final(out)@ == old(out)@ + b@.subrange(8 * i as int, 8 * i + n as int),
{
    assert forall|j: int| 0 <= j < n implies #[trigger] byte_of(w as nat, j as nat) == b@[8 * i
        + j] by {
        crate::words::lemma_words_of(b@, 8 * i + j);
    }
    lemma_byte(w as nat, k);
    crate::words::lemma_words_of(b@, 8 * i + k as int);
    assert(final(out)@ =~= old(out)@ + b@.subrange(8 * i as int, 8 * i + n as int));
}

/// What one owner writes into a word is what is there afterwards, and every other word is what it
/// was. Outside the memory there is nothing but zeros.
pub proof fn law_owner_reads_what_was_written(
    off: u64,
    val: u64,
    other: u64,
    l: &mut LocalMemory,
    m: &mut LocalMemory,
    n: &mut LocalMemory,
    o: &mut LocalMemory,
    before: u64,
    got: u64,
    later: u64,
)
    requires
        other != off,
        call_ensures(LocalMemory::load, (l, other), before),
        *old(m) == *final(l),
        call_ensures(LocalMemory::store, (m, off, val), ()),
        *old(n) == *final(m),
        call_ensures(LocalMemory::load, (n, off), got),
        *old(o) == *final(n),
        call_ensures(LocalMemory::load, (o, other), later),
    ensures
        got == if off % 8 == 0 && off / 8 < old(l).words().len() {
            val
        } else {
            0
        },
        later == before,
        final(o).words().len() == old(l).words().len(),
{
}

/// Memory that is shared is its cells: a word is read from its cell, written to its cell, and
/// exchanged in its cell. Where there is no cell, there is a zero, and nothing is written.
pub proof fn law_shared_words_are_cells(
    off: u64,
    i: int,
    val: u64,
    current: u64,
    l: &mut SharedMemory<'_>,
    m: &mut SharedMemory<'_>,
    n: &mut SharedMemory<'_>,
    got: u64,
    done: bool,
)
    requires
        call_ensures(SharedMemory::load, (l, off), got),
        *old(m) == *final(l),
        call_ensures(SharedMemory::store, (m, off, val), ()),
        *old(n) == *final(m),
        call_ensures(SharedMemory::cas, (n, off, current, val), done),
    ensures
        off == 8 * i && i < old(l).cells().len() ==> {
            let cell = &old(l).cells()[i];
            loaded(cell, got) && stored(cell, val) && exchanged(cell, current, val, done)
        },
        off % 8 != 0 || off >= 8 * old(l).cells().len() ==> got == 0 && !done,
        final(n).cells() == old(l).cells(),
{
}

// Versions.

/// Claiming a node gives its version, which is even, and leaves it one higher; committing that
/// version leaves it two higher. Nothing else changes.
pub proof fn law_claim_then_commit<M: Memory>(
    n: u64,
    k: int,
    l: &mut M,
    m: &mut M,
    seq: Option<u64>,
    s: u64,
)
    requires
        n == 8 * k,
        k + 3 <= old(l).words().len(),
        call_ensures(claim::<M>, (l, n), seq),
        *old(m) == *final(l),
        call_ensures(commit::<M>, (m, n, s), ()),
        seq is Some ==> seq == Some(s),
        final(m).undisturbed(),
    ensures
        ({
            let ws = old(l).words();
            &&& seq is Some <==> ws[k + 2] % 2 == 0
            &&& seq is Some ==> {
                &&& s == ws[k + 2]
                &&& final(l).words() == ws.update(k + 2, (s + 1) as u64)
                &&& final(m).words() == ws.update(
                    k + 2,
                    if s + 2 <= u64::MAX {
                        (s + 2) as u64
                    } else {
                        0
                    },
                )
            }
            &&& seq is None ==> final(l).words() == ws
        }),
{
    if seq is Some {
        assert(final(m).words() =~= old(l).words().update(
            k + 2,
            if s + 2 <= u64::MAX {
                (s + 2) as u64
            } else {
                0
            },
        ));
    }
}

// Blocks.

/// Without freed blocks, blocks come one behind the other, from where the header says on, and none
/// reaches behind the end.
pub proof fn law_blocks_in_a_row<M: Memory>(
    n: u64,
    k: u64,
    l: &mut M,
    m: &mut M,
    a: Option<u64>,
    b: Option<u64>,
)
    requires
        old(l).words().len() >= 6,
        old(l).words()[3] == u64::MAX,
        old(l).words()[5] == 0,
        call_ensures(alloc_aligned::<M>, (l, n), a),
        *old(m) == *final(l),
        call_ensures(alloc_aligned::<M>, (m, k), b),
        final(m).undisturbed(),
    ensures
        ({
            let ws = old(l).words();
            let at = ws[2] + if a is Some {
                n as int
            } else {
                0
            };
            &&& a is Some <==> ws[2] + n <= ws[1]
            &&& a is Some ==> a == Some(ws[2])
            &&& b is Some <==> at + k <= ws[1]
            &&& b matches Some(y) ==> y == at
        }),
{
}

/// A block that has been freed is the next one that comes, if it is large enough.
pub proof fn law_freed_block_comes_next<M: Memory>(
    off: u64,
    n: u64,
    k: u64,
    l: &mut M,
    m: &mut M,
    freed: bool,
    a: Option<u64>,
)
    requires
        old(l).words().len() >= 6,
        old(l).words()[3] == u64::MAX,
        old(l).words()[5] == 0,
        off % 8 == 0,
        n % 8 == 0,
        48 <= off,
        8 <= n,
        off + n <= 8 * old(l).words().len(),
        off + n <= u64::MAX,
        k <= n,
        call_ensures(dealloc::<M>, (l, off, n), freed),
        *old(m) == *final(l),
        call_ensures(alloc_aligned::<M>, (m, k), a),
        final(m).undisturbed(),
    ensures
        freed,
        a == Some(off),
{
    law_freed_block_is_reused(old(l).words(), off, n, k);
}

} // verus!
