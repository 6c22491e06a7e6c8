//! Packing of smaller values into 64-bit words.
use vstd::prelude::*;

verus! {

/// The lower half of a word.
pub open spec fn lower(w: u64) -> u32 {
    (w % 0x1_0000_0000) as u32
}

/// The upper half of a word.
pub open spec fn upper(w: u64) -> u32 {
    (w / 0x1_0000_0000) as u32
}

/// The word with the given halves.
pub open spec fn halves(lo: u32, hi: u32) -> u64 {
    (lo + hi * 0x1_0000_0000) as u64
}

/// The lower half of `w`.
pub fn lower_half(w: u64) -> (r: u32)
    ensures
        r == lower(w),
{
    (w % 0x1_0000_0000) as u32
}

/// The upper half of `w`.
pub fn upper_half(w: u64) -> (r: u32)
    ensures
        r == upper(w),
{
    (w / 0x1_0000_0000) as u32
}

/// Joins two halves.
pub fn join_halves(lo: u32, hi: u32) -> (w: u64)
    ensures
        w == halves(lo, hi),
        lower(w) == lo,
        upper(w) == hi,
{
    lo as u64 + hi as u64 * 0x1_0000_0000
}

pub proof fn lemma_halves(lo: u32, hi: u32)
    ensures
        lower(halves(lo, hi)) == lo,
        upper(halves(lo, hi)) == hi,
{
}

/// Byte `k` of `w`, the lowest first.
pub open spec fn byte_of(w: nat, k: nat) -> u8
    decreases k,
{
    if k == 0 {
        (w % 256) as u8
    } else {
        byte_of(w / 256, (k - 1) as nat)
    }
}

/// The number whose lowest bytes are `b`.
pub open spec fn pack(b: Seq<u8>) -> nat
    decreases b.len(),
{
    if b.len() == 0 {
        0
    } else {
        (b[0] + 256 * pack(b.drop_first())) as nat
    }
}

/// 256 to the power `k`.
pub open spec fn pow256(k: nat) -> nat
    decreases k,
{
    if k == 0 {
        1
    } else {
        256 * pow256((k - 1) as nat)
    }
}

pub proof fn lemma_pack_bound(b: Seq<u8>)
    ensures
        pack(b) < pow256(b.len()),
    decreases b.len(),
{
    if b.len() > 0 {
        lemma_pack_bound(b.drop_first());
    }
}

pub proof fn lemma_pack_fits(b: Seq<u8>)
    requires
        b.len() <= 8,
    ensures
        pack(b) <= u64::MAX,
{
    lemma_pack_bound(b);
    reveal_with_fuel(pow256, 9);
}

/// Packing loses no byte.
pub proof fn lemma_byte_of_pack(b: Seq<u8>, k: nat)
    requires
        k < b.len(),
    ensures
        byte_of(pack(b), k) == b[k as int],
    decreases b.len(),
{
    let rest = b.drop_first();
    if k == 0 {
    } else {
        lemma_byte_of_pack(rest, (k - 1) as nat);
        assert(pack(b) / 256 == pack(rest));
    }
}

/// The part of `b` that goes into word `i`.
pub open spec fn chunk(b: Seq<u8>, i: int) -> Seq<u8> {
    b.subrange(8 * i, if 8 * i + 8 <= b.len() { 8 * i + 8 } else { b.len() as int })
}

/// `b` as words, eight bytes each, the last one padded with zero bytes.
pub open spec fn words_of(b: Seq<u8>) -> Seq<u64> {
    Seq::new((b.len() + 7) / 8, |i: int| pack(chunk(b, i)) as u64)
}

/// The words of `b` give back the bytes of `b`.
pub proof fn lemma_words_of(b: Seq<u8>, j: int)
    requires
        0 <= j < b.len(),
    ensures
        j / 8 < words_of(b).len(),
        byte_of(words_of(b)[j / 8] as nat, (j % 8) as nat) == b[j],
{
    let c = chunk(b, j / 8);
    assert(c[j % 8] == b[j]);
    lemma_pack_fits(c);
    lemma_byte_of_pack(c, (j % 8) as nat);
}

/// Word `i` of the words of `b`.
pub fn pack_word(b: &[u8], i: usize) -> (w: u64)
    requires
        i < (b@.len() + 7) / 8,
    ensures
        w == words_of(b@)[i as int],
{
    let len: usize = b.len();
    let from: usize = 8 * i;
    let to: usize = if len - from >= 8 {
        from + 8
    } else {
        len
    };
    let ghost c = chunk(b@, i as int);
    let mut w: u64 = 0;
    let mut j: usize = to;
    proof {
        assert(c.subrange(to - from, to - from) =~= Seq::<u8>::empty());
        reveal_with_fuel(pow256, 9);
    }
    while j > from
        invariant
            from <= j <= to <= b@.len(),
            to - from <= 8,
            c == b@.subrange(from as int, to as int),
            w == pack(c.subrange(j - from, to - from)),
        decreases j,
    {
        j = j - 1;
        let ghost rest = c.subrange(j - from, to - from);
        proof {
            assert(rest.drop_first() =~= c.subrange(j + 1 - from, to - from));
            assert(rest[0] == b@[j as int]);
            lemma_pack_fits(rest);
        }
        w = w * 256 + b[j] as u64;
    }
    assert(c.subrange(0, to - from) =~= c);
    w
}

/// Appends the lowest `n` bytes of `w` to `out`.
pub fn unpack_word(out: &mut Vec<u8>, w: u64, n: usize)
    requires
        n <= 8,
    ensures
        final(out)@ == old(out)@ + Seq::new(n as nat, |k: int| byte_of(w as nat, k as nat)),
{
    let mut rest: u64 = w;
    let mut k: usize = 0;
    let ghost start = out@;
    while k < n
        invariant
            k <= n,
            out@ == start + Seq::new(k as nat, |k: int| byte_of(w as nat, k as nat)),
            forall|m: nat| #[trigger] byte_of(rest as nat, m) == byte_of(w as nat, m + k as nat),
        decreases n - k,
    {
        let ghost was = rest;
        proof {
            assert(byte_of(rest as nat, 0) == byte_of(w as nat, k as nat));
        }
        out.push((rest % 256) as u8);
        rest = rest / 256;
        proof {
            assert forall|m: nat| #[trigger] byte_of(rest as nat, m) == byte_of(
                w as nat,
                m + k as nat + 1,
            ) by {
                assert(byte_of(was as nat, m + 1) == byte_of(w as nat, m + 1 + k as nat));
            }
        }
        k = k + 1;
    }
}

} // verus!
