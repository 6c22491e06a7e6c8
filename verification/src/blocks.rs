//! The blocks of a region: which are in use, and which have been freed.
use crate::arena::{
    allocated, deallocated, freed_size, is_link, is_marked, keepable, lemma_marked, link_in,
    lock_free, marked, region_header, FREE_EMPTY, LOCK_FREE, LOCK_HELD, OFF_BUMP, OFF_FREE,
    OFF_LOCK, SIZE_HEADER,
};
use crate::memory::{in_words, lemma_word_put, put, word};
use vstd::prelude::*;

verus! {

/// A block: where it is, and how many bytes it has.
pub ghost struct Block {
    pub off: int,
    pub len: int,
}

impl Block {
    /// The block lies between the header and `bound`.
    pub open spec fn below(self, bound: int) -> bool {
        &&& self.off % 8 == 0
        &&& self.len % 8 == 0
        &&& SIZE_HEADER <= self.off
        &&& 0 < self.len
        &&& self.off + self.len <= bound
    }

    /// The blocks have no byte in common.
    pub open spec fn apart(self, other: Block) -> bool {
        self.off + self.len <= other.off || other.off + other.len <= self.off
    }

    /// The word at `a` is part of the block.
    pub open spec fn has(self, a: int) -> bool {
        self.off <= a < self.off + self.len
    }
}

/// Block `i` of the free list `free`, which ends with the block freed last, leads to the one
/// before, and says how long it is.
pub open spec fn chained(ws: Seq<u64>, free: Seq<Block>, i: int) -> bool {
    &&& freed_size(ws, free[i].off as u64) == free[i].len
    &&& is_marked(word(ws, free[i].off)) == (free[i].len == 8)
    &&& link_in(word(ws, free[i].off)) == top_of(free.take(i))
}

/// Where the block that was freed last is.
pub open spec fn top_of(free: Seq<Block>) -> int {
    if free.len() == 0 {
        FREE_EMPTY as int
    } else {
        free.last().off
    }
}

/// The blocks `live` are in use, the blocks `free` have been freed, and no two of them have a byte
/// in common.
pub open spec fn keeps(ws: Seq<u64>, live: Set<Block>, free: Seq<Block>) -> bool {
    let hdr = region_header(ws);
    &&& lock_free(ws)
    &&& hdr.bump % 8 == 0
    &&& SIZE_HEADER <= hdr.bump <= hdr.capacity <= 8 * ws.len()
    &&& hdr.bump <= FREE_EMPTY - 8
    &&& hdr.free_top == top_of(free)
    &&& forall|b: Block| #[trigger] live.contains(b) ==> b.below(hdr.bump as int)
    &&& forall|i: int| 0 <= i < free.len() ==> (#[trigger] free[i]).below(hdr.bump as int)
    &&& forall|i: int| 0 <= i < free.len() ==> #[trigger] chained(ws, free, i)
    &&& forall|b: Block, c: Block| #[trigger]
        live.contains(b) && #[trigger] live.contains(c) && b != c ==> b.apart(c)
    &&& forall|b: Block, i: int| #[trigger]
        live.contains(b) && 0 <= i < free.len() ==> b.apart(#[trigger] free[i])
    &&& forall|i: int, j: int|
        0 <= i < j < free.len() ==> (#[trigger] free[i]).apart(#[trigger] free[j])
}

/// `xs` is `ws` but for the header, where the free list and the bound may have moved.
proof fn lemma_chain(ws: Seq<u64>, xs: Seq<u64>, free: Seq<Block>, bound: int)
    requires
        bound <= FREE_EMPTY,
        forall|i: int| 0 <= i < free.len() ==> (#[trigger] free[i]).below(bound),
        forall|i: int| 0 <= i < free.len() ==> #[trigger] chained(ws, free, i),
        forall|i: int, a: int|
            0 <= i < free.len() && (#[trigger] free[i]).has(a) ==> #[trigger] word(xs, a) == word(
                ws,
                a,
            ),
    ensures
        forall|i: int| 0 <= i < free.len() ==> #[trigger] chained(xs, free, i),
{
    assert forall|i: int| 0 <= i < free.len() implies #[trigger] chained(xs, free, i) by {
        assert(chained(ws, free, i));
        assert(free[i].below(bound));
        assert(free[i].has(free[i].off));
        assert(free[i].len > 8 ==> free[i].has(free[i].off + 8));
    }
}

/// What is allocated is the caller's alone: the block lies in the region, behind the header, and
/// has no byte in common with any other block in use. The blocks that were in use stay so.
pub proof fn law_allocation_is_apart(ws: Seq<u64>, live: Set<Block>, free: Seq<Block>, n: u64)
    requires
        keeps(ws, live, free),
        n % 8 == 0,
        n > 0,
        region_header(ws).capacity <= FREE_EMPTY - 8,
    ensures
        allocated(ws, n).0 matches Some(off) ==> {
            let new = Block { off: off as int, len: n as int };
            &&& off % 8 == 0
            &&& SIZE_HEADER <= off
            &&& off + n <= region_header(ws).capacity
            &&& forall|b: Block| #[trigger] live.contains(b) ==> b.apart(new)
            &&& exists|rest: Seq<Block>| #[trigger]
                keeps(allocated(ws, n).1, live.insert(new), rest)
        },
        allocated(ws, n).0 is None ==> allocated(ws, n).1 == ws,
{
    let hdr = region_header(ws);
    let xs = allocated(ws, n).1;
    let held = put(ws, OFF_LOCK as int, LOCK_HELD);
    let last = free.len() - 1;
    let top = free[last];
    if free.len() > 0 {
        assert(chained(ws, free, last));
        assert(top.below(hdr.bump as int));
        lemma_word_put(ws, OFF_LOCK as int, LOCK_HELD, top.off);
        lemma_word_put(ws, OFF_LOCK as int, LOCK_HELD, top.off + 8);
    }
    if free.len() > 0 && n <= top.len {
        let rest = free.drop_last();
        let new = Block { off: top.off, len: n as int };
        let next = link_in(word(ws, top.off));
        assert(rest =~= free.take(last));
        assert(xs == put(ws, OFF_FREE as int, next));
        assert forall|a: int| a != OFF_FREE implies #[trigger] word(xs, a) == word(ws, a) by {
            lemma_word_put(ws, OFF_FREE as int, next, a);
        }
        lemma_word_put(ws, OFF_FREE as int, next, OFF_FREE as int);
        assert forall|i: int| 0 <= i < rest.len() implies #[trigger] chained(ws, rest, i) by {
            assert(chained(ws, free, i));
            assert(rest[i] == free[i]);
            assert(rest.take(i) =~= free.take(i));
        }
        assert forall|i: int| 0 <= i < rest.len() implies (#[trigger] rest[i]).below(
            hdr.bump as int,
        ) && rest[i] == free[i] by {
            assert(free[i].below(hdr.bump as int));
        }
        lemma_chain(ws, xs, rest, hdr.bump as int);
        assert forall|b: Block| #[trigger] live.contains(b) implies b.apart(new) by {
            assert(b.apart(free[last]));
        }
        assert forall|i: int| 0 <= i < rest.len() implies new.apart(#[trigger] rest[i]) by {
            assert(free[i].apart(free[last]));
        }
        assert(keeps(xs, live.insert(new), rest));
    } else if hdr.bump + n <= hdr.capacity {
        let new = Block { off: hdr.bump as int, len: n as int };
        let end = (hdr.bump + n) as u64;
        assert(xs == put(ws, OFF_BUMP as int, end));
        assert forall|a: int| a != OFF_BUMP implies #[trigger] word(xs, a) == word(ws, a) by {
            lemma_word_put(ws, OFF_BUMP as int, end, a);
        }
        lemma_word_put(ws, OFF_BUMP as int, end, OFF_BUMP as int);
        lemma_chain(ws, xs, free, hdr.bump as int);
        assert(keeps(xs, live.insert(new), free));
    }
}

/// A block that is freed is no longer in use; the others stay so.
pub proof fn law_free_keeps_the_rest(
    ws: Seq<u64>,
    live: Set<Block>,
    free: Seq<Block>,
    off: u64,
    n: u64,
)
    requires
        keeps(ws, live, free),
        live.contains(Block { off: off as int, len: n as int }),
    ensures
        exists|rest: Seq<Block>| #[trigger]
            keeps(
                deallocated(ws, off, n),
                live.remove(Block { off: off as int, len: n as int }),
                rest,
            ),
{
    let hdr = region_header(ws);
    let old = Block { off: off as int, len: n as int };
    let xs = deallocated(ws, off, n);
    assert(old.below(hdr.bump as int));
    if keepable(off, n) {
        let top = hdr.free_top;
        assert(is_link(top)) by {
            if free.len() > 0 {
                assert(free[free.len() - 1].below(hdr.bump as int));
            }
        }
        lemma_marked(top);
        let first = if n < 16 {
            marked(top)
        } else {
            top
        };
        let w1 = put(ws, off as int, first);
        let w2 = if n < 16 {
            w1
        } else {
            put(w1, off + 8, n)
        };
        let w3 = put(w2, OFF_FREE as int, off);
        let rest = free.push(old);
        assert forall|a: int|
            !old.has(a) && a != OFF_FREE && a != OFF_LOCK implies #[trigger] word(xs, a) == word(
            ws,
            a,
        ) by {
            lemma_word_put(ws, off as int, first, a);
            lemma_word_put(w1, off + 8, n, a);
            lemma_word_put(w2, OFF_FREE as int, off, a);
            lemma_word_put(w3, OFF_LOCK as int, LOCK_FREE, a);
        }
        assert(word(xs, off as int) == first && (n >= 16 ==> word(xs, off + 8) == n)) by {
            lemma_word_put(ws, off as int, first, off as int);
            lemma_word_put(w1, off + 8, n, off as int);
            lemma_word_put(w2, OFF_FREE as int, off, off as int);
            lemma_word_put(w3, OFF_LOCK as int, LOCK_FREE, off as int);
            lemma_word_put(w1, off + 8, n, off + 8);
            lemma_word_put(w2, OFF_FREE as int, off, off + 8);
            lemma_word_put(w3, OFF_LOCK as int, LOCK_FREE, off + 8);
        }
        assert(region_header(xs).free_top == off && lock_free(xs)) by {
            lemma_word_put(w2, OFF_FREE as int, off, OFF_FREE as int);
            lemma_word_put(w3, OFF_LOCK as int, LOCK_FREE, OFF_FREE as int);
            lemma_word_put(w3, OFF_LOCK as int, LOCK_FREE, OFF_LOCK as int);
        }
        assert forall|i: int, a: int| 0 <= i < free.len() && (#[trigger] free[i]).has(a) implies
            #[trigger] word(xs, a) == word(ws, a) by {
            assert(old.apart(free[i]));
            assert(free[i].below(hdr.bump as int));
        }
        lemma_chain(ws, xs, free, hdr.bump as int);
        assert forall|i: int| 0 <= i < rest.len() implies #[trigger] chained(xs, rest, i) by {
            if i < free.len() {
                assert(chained(xs, free, i));
                assert(rest[i] == free[i]);
                assert(rest.take(i) =~= free.take(i));
            } else {
                assert(rest.take(i) =~= free);
            }
        }
        assert forall|i: int| 0 <= i < rest.len() implies (#[trigger] rest[i]).below(
            hdr.bump as int,
        ) by {
            if i < free.len() {
                assert(free[i].below(hdr.bump as int));
            }
        }
        assert forall|i: int, j: int| 0 <= i < j < rest.len() implies (#[trigger] rest[i]).apart(
            #[trigger] rest[j],
        ) by {
            assert(rest[i] == free[i]);
            if j < free.len() {
                assert(free[i].apart(free[j]));
            } else {
                assert(old.apart(free[i]));
            }
        }
        assert forall|b: Block, i: int| #[trigger]
            live.remove(old).contains(b) && 0 <= i < rest.len() implies b.apart(
            #[trigger] rest[i],
        ) by {
            assert(live.contains(b));
            if i < free.len() {
                assert(b.apart(free[i]));
            } else {
                assert(b.apart(old));
            }
        }
        assert(keeps(xs, live.remove(old), rest));
    } else {
        assert(keeps(ws, live.remove(old), free));
    }
}

/// Whoever writes to a block in use leaves the others, in use or freed, as they are.
pub proof fn law_blocks_are_independent(
    ws: Seq<u64>,
    live: Set<Block>,
    free: Seq<Block>,
    b: Block,
    a: int,
    val: u64,
)
    requires
        keeps(ws, live, free),
        live.contains(b),
        b.has(a),
    ensures
        keeps(put(ws, a, val), live, free),
        forall|c: Block, x: int| #[trigger]
            live.contains(c) && c != b && c.has(x) ==> #[trigger] word(put(ws, a, val), x) == word(
                ws,
                x,
            ),
{
    let xs = put(ws, a, val);
    let bound = region_header(ws).bump as int;
    assert(b.below(bound));
    assert forall|x: int| x != a implies #[trigger] word(xs, x) == word(ws, x) by {
        lemma_word_put(ws, a, val, x);
    }
    assert(in_words(xs, OFF_LOCK as int));
    assert forall|i: int, x: int| 0 <= i < free.len() && (#[trigger] free[i]).has(x) implies
        #[trigger] word(xs, x) == word(ws, x) by {
        assert(b.apart(free[i]));
    }
    lemma_chain(ws, xs, free, bound);
    assert forall|c: Block, x: int| #[trigger]
        live.contains(c) && c != b && c.has(x) implies #[trigger] word(xs, x) == word(ws, x) by {
        assert(b.apart(c));
    }
}

/// A new region has no blocks.
pub proof fn law_new_region_has_no_blocks(ws: Seq<u64>)
    requires
        lock_free(ws),
        region_header(ws).bump == SIZE_HEADER,
        SIZE_HEADER <= region_header(ws).capacity <= 8 * ws.len(),
        region_header(ws).free_top == FREE_EMPTY,
    ensures
        keeps(ws, Set::empty(), Seq::empty()),
{
}

} // verus!
