//! Bit-level specifications for the bitmapped sparse nodes: counting set
//! bits below a position, and how that count moves when a bit is set or
//! cleared.

use vstd::prelude::*;

verus! {

/// Number of set bits of `b` among the bit positions `0 .. n`.
pub open spec fn pcount(b: u64, n: nat) -> nat
    decreases n,
{
    if n == 0 {
        0
    } else {
        pcount(b, (n - 1) as nat) + (if b & (1u64 << (((n - 1) as nat) as u64)) != 0u64 {
            1nat
        } else {
            0nat
        })
    }
}

/// The six-bit slice of `hash` consumed at `level`.
pub open spec fn hash_index(hash: u64, level: nat) -> u64 {
    (hash >> (level as u64)) & 0x3f
}

/// The bitmap flag corresponding to the six-bit slice of `hash` at `level`.
pub open spec fn flag_of(hash: u64, level: nat) -> u64 {
    1u64 << hash_index(hash, level)
}

/// The array position of the branch for `hash` at `level` in a node whose
/// bitmap is `bitmap`: the number of set bits preceding the flag.
pub open spec fn pos_of(bitmap: u64, hash: u64, level: nat) -> nat {
    pcount(bitmap, hash_index(hash, level) as nat)
}

/// A six-bit slice is always below 64, so its flag is well defined.
pub proof fn lemma_hash_index_bound(hash: u64, level: nat)
    ensures
        hash_index(hash, level) < 64,
{
    let l = level as u64;
    assert((hash >> l) & 0x3f < 64) by (bit_vector);
}

/// Unfolding step of `pcount`.
pub proof fn lemma_pcount_step(b: u64, n: nat)
    ensures
        pcount(b, n + 1) == pcount(b, n) + (if b & (1u64 << (n as u64)) != 0u64 {
            1nat
        } else {
            0nat
        }),
{
    assert(((n + 1) as nat - 1) as nat == n);
}

/// A zero bitmap has no set bits in any range.
pub proof fn lemma_pcount_zero(n: nat)
    ensures
        pcount(0u64, n) == 0,
    decreases n,
{
    if n > 0 {
        lemma_pcount_zero((n - 1) as nat);
        let i = ((n - 1) as nat) as u64;
        assert(0u64 & (1u64 << i) == 0u64) by (bit_vector);
    }
}

/// Counting over a wider range never decreases the count.
pub proof fn lemma_pcount_mono(b: u64, m: nat, n: nat)
    requires
        m <= n,
    ensures
        pcount(b, m) <= pcount(b, n),
    decreases n,
{
    if m < n {
        lemma_pcount_mono(b, m, (n - 1) as nat);
    }
}

/// Setting a clear bit `j` raises by one the count of every range that
/// covers `j` and leaves every other range unchanged.
pub proof fn lemma_pcount_or(b: u64, j: u64, n: nat)
    requires
        j < 64,
        b & (1u64 << j) == 0u64,
        n <= 64,
    ensures
        pcount(b | (1u64 << j), n) == pcount(b, n) + (if (j as nat) < n {
            1nat
        } else {
            0nat
        }),
    decreases n,
{
    if n > 0 {
        lemma_pcount_or(b, j, (n - 1) as nat);
        let i = ((n - 1) as nat) as u64;
        assert(i < 64);
        if i == j {
            assert(j < 64 ==> (b | (1u64 << j)) & (1u64 << j) != 0u64) by (bit_vector);
        } else {
            assert(i != j && i < 64 && j < 64 ==> ((b | (1u64 << j)) & (1u64 << i)) == (b & (1u64
                << i))) by (bit_vector);
        }
    }
}

/// Clearing a set bit `j` lowers by one the count of every range that
/// covers `j` and leaves every other range unchanged.
pub proof fn lemma_pcount_and_not(b: u64, j: u64, n: nat)
    requires
        j < 64,
        b & (1u64 << j) != 0u64,
        n <= 64,
    ensures
        pcount(b, n) == pcount(b & !(1u64 << j), n) + (if (j as nat) < n {
            1nat
        } else {
            0nat
        }),
{
    let cleared = b & !(1u64 << j);
    assert(j < 64 ==> (b & !(1u64 << j)) & (1u64 << j) == 0u64) by (bit_vector);
    assert(b & (1u64 << j) != 0u64 ==> (b & !(1u64 << j)) | (1u64 << j) == b) by (bit_vector);
    lemma_pcount_or(cleared, j, n);
}

/// The position of a set bit lies strictly below the count of any wider
/// range, so in particular below the total number of set bits.
pub proof fn lemma_pcount_lt(b: u64, j: u64, n: nat)
    requires
        j < 64,
        (j as nat) < n,
        n <= 64,
        b & (1u64 << j) != 0u64,
    ensures
        pcount(b, j as nat) < pcount(b, n),
{
    lemma_pcount_step(b, j as nat);
    lemma_pcount_mono(b, (j as nat) + 1, n);
}

/// A bitmap with a positive count has a least set bit: one with no set
/// bits below it.
pub proof fn lemma_pcount_first(b: u64, n: nat)
    requires
        n <= 64,
        pcount(b, n) > 0,
    ensures
        exists|j: u64|
            j < n && b & (1u64 << j) != 0u64 && #[trigger] pcount(b, j as nat) == 0,
    decreases n,
{
    let m = (n - 1) as nat;
    if pcount(b, m) > 0 {
        lemma_pcount_first(b, m);
        let j = choose|j: u64| j < m && b & (1u64 << j) != 0u64 && #[trigger] pcount(b, j as nat) == 0;
        assert(j < n && b & (1u64 << j) != 0u64 && pcount(b, j as nat) == 0);
    } else {
        let j = m as u64;
        assert(j < n && b & (1u64 << j) != 0u64 && pcount(b, j as nat) == 0);
    }
}

/// Every array position below the total count is the position of some
/// set bit.
pub proof fn lemma_pcount_index(b: u64, n: nat, i: int)
    requires
        n <= 64,
        0 <= i < pcount(b, n),
    ensures
        exists|j: u64|
            j < n && b & (1u64 << j) != 0u64 && #[trigger] pcount(b, j as nat) == i,
    decreases n,
{
    let m = (n - 1) as nat;
    if i < pcount(b, m) {
        lemma_pcount_index(b, m, i);
        let j = choose|j: u64| j < m && b & (1u64 << j) != 0u64 && #[trigger] pcount(b, j as nat) == i;
        assert(j < n && b & (1u64 << j) != 0u64 && pcount(b, j as nat) == i);
    } else {
        let j = m as u64;
        assert(j < n && b & (1u64 << j) != 0u64 && pcount(b, j as nat) == i);
    }
}

/// The mask of the hash bits consumed strictly below `lvl`: all 64 bits
/// once the maximal depth is passed.
pub open spec fn low_mask(lvl: nat) -> u64 {
    if lvl >= 64 {
        0xffff_ffff_ffff_ffffu64
    } else {
        !(0xffff_ffff_ffff_ffffu64 << (lvl as u64))
    }
}

/// Two hashes agree on every bit consumed below `lvl`.
pub open spec fn hash_agrees_below(h1: u64, h2: u64, lvl: nat) -> bool {
    h1 & low_mask(lvl) == h2 & low_mask(lvl)
}

/// Below the root no bit has been consumed, so any two hashes agree.
pub proof fn lemma_agree_root(h1: u64, h2: u64)
    ensures
        hash_agrees_below(h1, h2, 0),
{
    assert(h1 & !(0xffff_ffff_ffff_ffffu64 << 0) == h2 & !(0xffff_ffff_ffff_ffffu64 << 0))
        by (bit_vector);
}

/// Agreement below a level, together with an equal six-bit slice at that
/// level, extends the agreement past the slice.
pub proof fn lemma_agree_extend(h1: u64, h2: u64, lvl: nat)
    requires
        lvl % 6 == 0,
        lvl <= 60,
        hash_agrees_below(h1, h2, lvl),
        hash_index(h1, lvl) == hash_index(h2, lvl),
    ensures
        hash_agrees_below(h1, h2, (lvl + 6) as nat),
{
    let l = lvl as u64;
    let m = 0xffff_ffff_ffff_ffffu64;
    if lvl == 60 {
        assert(h1 & !(m << l) == h2 & !(m << l) && (h1 >> l) & 0x3f == (h2 >> l) & 0x3f && l == 60
            ==> h1 & m == h2 & m) by (bit_vector);
    } else {
        assert(h1 & !(m << l) == h2 & !(m << l) && (h1 >> l) & 0x3f == (h2 >> l) & 0x3f && l < 60
            ==> h1 & !(m << (l + 6)) == h2 & !(m << (l + 6))) by (bit_vector)
            requires
                m == 0xffff_ffff_ffff_ffffu64,
        ;
        assert((lvl + 6) as u64 == l + 6);
    }
}

/// Agreement below the maximal depth is equality of the full hashes.
pub proof fn lemma_agree_full(h1: u64, h2: u64, lvl: nat)
    requires
        lvl >= 64,
        hash_agrees_below(h1, h2, lvl),
    ensures
        h1 == h2,
{
    assert(h1 & 0xffff_ffff_ffff_ffffu64 == h1 && h2 & 0xffff_ffff_ffff_ffffu64 == h2)
        by (bit_vector);
}

/// Counts the set bits of `bitmap` among the positions `0 .. index`.
pub fn count_bits_below(bitmap: u64, index: u64) -> (count: usize)
    requires
        index <= 64,
    ensures
        count == pcount(bitmap, index as nat),
{
    let mut count: usize = 0;
    let mut i: u64 = 0;
    while i < index
        invariant
            i <= index,
            index <= 64,
            count == pcount(bitmap, i as nat),
            count <= i,
        decreases index - i,
    {
        proof {
            lemma_pcount_step(bitmap, i as nat);
        }
        if bitmap & (1u64 << i) != 0u64 {
            count += 1;
        }
        i += 1;
    }
    count
}

} // verus!
