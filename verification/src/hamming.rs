//! Hamming distances between integers and between sequences of integers.
use vstd::prelude::*;

verus! {

/// Number of one bits in `x`.
pub open spec fn popcount(x: nat) -> nat
    decreases x,
{
    if x == 0 {
        0
    } else {
        (x % 2) + popcount(x / 2)
    }
}

/// Hamming distance between two bytes: the number of bit positions where they differ.
pub open spec fn byte_distance(b: u8, c: u8) -> nat {
    popcount((b ^ c) as nat)
}

/// Hamming distance between two 64-bit words.
pub open spec fn word_distance(w: u64, x: u64) -> nat {
    popcount((w ^ x) as nat)
}

/// `popcount(x) <= k` whenever `x < 2^k`.
pub proof fn lemma_popcount_bound(x: nat, k: nat)
    requires
        x < vstd::arithmetic::power2::pow2(k),
    ensures
        popcount(x) <= k,
    decreases k,
{
    if k == 0 {
        vstd::arithmetic::power2::lemma2_to64();
    } else {
        vstd::arithmetic::power2::lemma_pow2_unfold(k);
        lemma_popcount_bound(x / 2, (k - 1) as nat);
    }
}

/// Counts the bits in which `b` and `c` differ.
pub fn distance_u8(b: u8, c: u8) -> (count: u64)
    ensures
        count == byte_distance(b, c),
        count <= 8,
{
    let mut diff: u8 = b ^ c;
    let mut count: u64 = 0;
    proof {
        vstd::arithmetic::power2::lemma2_to64();
        lemma_popcount_bound(diff as nat, 8);
    }
    while diff > 0
        invariant
            count + popcount(diff as nat) == byte_distance(b, c),
            popcount((b ^ c) as nat) <= 8,
        decreases diff,
    {
        assert(diff & 1 == diff % 2) by (bit_vector);
        assert(diff >> 1 == diff / 2) by (bit_vector);
        if diff & 1 == 1 {
            count += 1;
        }
        diff >>= 1;
    }
    return count;
}


/// Counts the bits in which `w` and `x` differ.
pub fn distance_u64(w: u64, x: u64) -> (count: u64)
    ensures
        count == word_distance(w, x),
        count <= 64,
{
    let mut diff: u64 = w ^ x;
    let mut count: u64 = 0;
    proof {
        vstd::arithmetic::power2::lemma2_to64_rest();
        lemma_popcount_bound(diff as nat, 64);
    }
    while diff > 0
        invariant
            count + popcount(diff as nat) == word_distance(w, x),
            popcount((w ^ x) as nat) <= 64,
        decreases diff,
    {
        assert(diff & 1 == diff % 2) by (bit_vector);
        assert(diff >> 1 == diff / 2) by (bit_vector);
        if diff & 1 == 1 {
            count += 1;
        }
        diff >>= 1;
    }
    return count;
}

/// Length of the common prefix that a zip of two sequences walks over.
pub open spec fn zip_len<A, B>(a: Seq<A>, b: Seq<B>) -> int {
    if a.len() <= b.len() {
        a.len() as int
    } else {
        b.len() as int
    }
}

/// Sum of the byte distances over the first `n` positions.
pub open spec fn bytes_distance_upto(bs: Seq<u8>, cs: Seq<u8>, n: int) -> nat
    decreases n,
{
    if n <= 0 {
        0
    } else {
        bytes_distance_upto(bs, cs, n - 1) + byte_distance(bs[n - 1], cs[n - 1])
    }
}

/// Sum of the word distances over the first `n` positions.
pub open spec fn words_distance_upto(ws: Seq<u64>, xs: Seq<u64>, n: int) -> nat
    decreases n,
{
    if n <= 0 {
        0
    } else {
        words_distance_upto(ws, xs, n - 1) + word_distance(ws[n - 1], xs[n - 1])
    }
}

/// Hamming distance between two byte strings, taken over their common length.
pub open spec fn bytes_distance(bs: Seq<u8>, cs: Seq<u8>) -> nat {
    bytes_distance_upto(bs, cs, zip_len(bs, cs))
}

/// Hamming distance between two word strings, taken over their common length.
pub open spec fn words_distance(ws: Seq<u64>, xs: Seq<u64>) -> nat {
    words_distance_upto(ws, xs, zip_len(ws, xs))
}

/// Total bit distance between the pairs of bytes at equal positions; bytes past
/// the end of the shorter vector are ignored.
pub fn distance_bytes(bs: Vec<u8>, cs: Vec<u8>) -> (total: u64)
    requires
        8 * zip_len(bs@, cs@) <= u64::MAX,
    ensures
        total == bytes_distance(bs@, cs@),
{
    let n: usize = if bs.len() <= cs.len() { bs.len() } else { cs.len() };
    let mut total: u64 = 0;
    let mut i: usize = 0;
    while i < n
        invariant
            n == zip_len(bs@, cs@),
            8 * n <= u64::MAX,
            i <= n,
            total == bytes_distance_upto(bs@, cs@, i as int),
            total <= 8 * i,
        decreases n - i,
    {
        let d = distance_u8(bs[i], cs[i]);
        total += d;
        i += 1;
    }
    return total;
}

/// Total bit distance between the pairs of words at equal positions; words past
/// the end of the shorter vector are ignored.
pub fn distance_words(ws: Vec<u64>, xs: Vec<u64>) -> (total: u64)
    requires
        64 * zip_len(ws@, xs@) <= u64::MAX,
    ensures
        total == words_distance(ws@, xs@),
{
    let n: usize = if ws.len() <= xs.len() { ws.len() } else { xs.len() };
    let mut total: u64 = 0;
    let mut i: usize = 0;
    while i < n
        invariant
            n == zip_len(ws@, xs@),
            64 * n <= u64::MAX,
            i <= n,
            total == words_distance_upto(ws@, xs@, i as int),
            total <= 64 * i,
        decreases n - i,
    {
        let d = distance_u64(ws[i], xs[i]);
        total += d;
        i += 1;
    }
    return total;
}

proof fn lemma_popcount_xor_triangle(a: u64, b: u64, c: u64)
    ensures
        popcount((a ^ c) as nat) <= popcount((a ^ b) as nat) + popcount((b ^ c) as nat),
    decreases a, b, c,
{
    if a == 0 && b == 0 && c == 0 {
        assert(a ^ c == 0 && a ^ b == 0 && b ^ c == 0) by (bit_vector)
            requires a == 0 && b == 0 && c == 0;
    } else {
        let a2 = a / 2;
        let b2 = b / 2;
        let c2 = c / 2;
        assert((a ^ c) / 2 == a2 ^ c2 && (a ^ b) / 2 == a2 ^ b2 && (b ^ c) / 2 == b2 ^ c2)
            by (bit_vector)
            requires a2 == a / 2 && b2 == b / 2 && c2 == c / 2;
        assert((a ^ c) % 2 <= (a ^ b) % 2 + (b ^ c) % 2) by (bit_vector);
        if a2 == a {
            assert(a == 0);
        }
        if a2 < a {
            lemma_popcount_xor_triangle(a2, b2, c2);
        } else if b2 < b {
            lemma_popcount_xor_triangle(a2, b2, c2);
        } else {
            assert(c2 < c);
            lemma_popcount_xor_triangle(a2, b2, c2);
        }
    }
}

proof fn lemma_popcount_zero(x: nat)
    ensures
        popcount(x) == 0 <==> x == 0,
    decreases x,
{
    if x > 0 {
        lemma_popcount_zero(x / 2);
    }
}

/// The word distance is a metric: it is zero exactly on equal words, it is
/// symmetric, and it satisfies the triangle inequality.
pub proof fn law_word_distance_metric(w: u64, x: u64, y: u64)
    ensures
        word_distance(w, x) == 0 <==> w == x,
        word_distance(w, x) == word_distance(x, w),
        word_distance(w, y) <= word_distance(w, x) + word_distance(x, y),
{
    lemma_popcount_zero((w ^ x) as nat);
    assert((w ^ x == 0) <==> w == x) by (bit_vector);
    assert(w ^ x == x ^ w) by (bit_vector);
    lemma_popcount_xor_triangle(w, x, y);
}

/// The byte distance is a metric: it is zero exactly on equal bytes, it is
/// symmetric, and it satisfies the triangle inequality.
pub proof fn law_byte_distance_metric(b: u8, c: u8, d: u8)
    ensures
        byte_distance(b, c) == 0 <==> b == c,
        byte_distance(b, c) == byte_distance(c, b),
        byte_distance(b, d) <= byte_distance(b, c) + byte_distance(c, d),
{
    let (wb, wc, wd) = (b as u64, c as u64, d as u64);
    assert((b ^ c) as u64 == wb ^ wc && (c ^ b) as u64 == wc ^ wb && (b ^ d) as u64 == wb ^ wd
        && (c ^ d) as u64 == wc ^ wd) by (bit_vector)
        requires wb == b as u64 && wc == c as u64 && wd == d as u64;
    law_word_distance_metric(wb, wc, wd);
}

/// Sequence distances are symmetric.
pub proof fn law_sequence_distance_symmetric(bs: Seq<u8>, cs: Seq<u8>, ws: Seq<u64>, xs: Seq<u64>)
    ensures
        bytes_distance(bs, cs) == bytes_distance(cs, bs),
        words_distance(ws, xs) == words_distance(xs, ws),
{
    lemma_bytes_symmetric(bs, cs, zip_len(bs, cs));
    lemma_words_symmetric(ws, xs, zip_len(ws, xs));
}

proof fn lemma_bytes_symmetric(bs: Seq<u8>, cs: Seq<u8>, n: int)
    ensures
        bytes_distance_upto(bs, cs, n) == bytes_distance_upto(cs, bs, n),
    decreases n,
{
    if n > 0 {
        lemma_bytes_symmetric(bs, cs, n - 1);
        law_byte_distance_metric(bs[n - 1], cs[n - 1], cs[n - 1]);
    }
}

proof fn lemma_words_symmetric(ws: Seq<u64>, xs: Seq<u64>, n: int)
    ensures
        words_distance_upto(ws, xs, n) == words_distance_upto(xs, ws, n),
    decreases n,
{
    if n > 0 {
        lemma_words_symmetric(ws, xs, n - 1);
        law_word_distance_metric(ws[n - 1], xs[n - 1], xs[n - 1]);
    }
}

} // verus!
