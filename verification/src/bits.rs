//! Cells of four bits inside a `u64`, and the facts about shifts and masks
//! that the rest of the crate builds on.

use vstd::prelude::*;

verus! {

/// Bits in one cell.
pub const SQ_BITS: u64 = 4;

/// The low cell of a word.
pub const MASK: u64 = 0xF;

/// The four bits of `x` that form its cell number `p`, counted from the low end.
pub open spec fn nib(x: u64, p: u64) -> u64 {
    (x >> ((4 * p) as u64)) & 0xF
}

/// The word that holds `c0`, `c1`, `c2`, `c3` in cells `0`, `s`, `2s`, `3s`.
pub open spec fn pack4(c0: u64, c1: u64, c2: u64, c3: u64, s: u64) -> u64 {
    c0 | (c1 << ((4 * s) as u64)) | (c2 << ((8 * s) as u64)) | (c3 << ((12 * s) as u64))
}

/// The cell number `p` of `x`.
pub fn code_at(x: u64, p: u64) -> (c: u64)
    requires
        p < 16,
    ensures
        c == nib(x, p),
        c <= 15,
{
    proof {
        lemma_nib_small(x, p);
    }
    (x >> (SQ_BITS * p)) & MASK
}

/// A cell holds at most 15.
pub proof fn lemma_nib_small(x: u64, p: u64)
    by (bit_vector)
    ensures
        nib(x, p) <= 15,
{
}

/// Shifting a word up by `q` cells moves each cell up by `q` and leaves the
/// low `q` cells empty.
pub proof fn lemma_nib_shl(x: u64, p: u64, q: u64)
    by (bit_vector)
    requires
        p < 16,
        q < 16,
    ensures
        nib(x << ((4 * q) as u64), p) == (if p >= q {
            nib(x, (p - q) as u64)
        } else {
            0
        }),
{
}

/// The cells of `a | b` are those of `a` and `b`, bit by bit; where one
/// word has an empty cell, the cell of the other.
pub proof fn lemma_nib_or(a: u64, b: u64, p: u64)
    by (bit_vector)
    requires
        p < 16,
    ensures
        nib(a | b, p) == nib(a, p) | nib(b, p),
        nib(a, p) == 0 ==> nib(a | b, p) == nib(b, p),
        nib(b, p) == 0 ==> nib(a | b, p) == nib(a, p),
{
}

/// A packed word holds the four codes in their cells and nothing else.
pub proof fn lemma_pack4(c0: u64, c1: u64, c2: u64, c3: u64, s: u64)
    by (bit_vector)
    requires
        c0 <= 15,
        c1 <= 15,
        c2 <= 15,
        c3 <= 15,
        s == 1 || s == 4,
    ensures
        nib(pack4(c0, c1, c2, c3, s), 0) == c0,
        nib(pack4(c0, c1, c2, c3, s), s) == c1,
        nib(pack4(c0, c1, c2, c3, s), (2 * s) as u64) == c2,
        nib(pack4(c0, c1, c2, c3, s), (3 * s) as u64) == c3,
        forall|p: u64|
            p < 16 && p != 0 && p != s && p != 2 * s && p != 3 * s ==> #[trigger] nib(
                pack4(c0, c1, c2, c3, s),
                p,
            ) == 0,
{
}

/// A word is its sixteen cells put together.
pub proof fn lemma_nibs_compose(a: u64)
    by (bit_vector)
    ensures
        a == nib(a, 0) | nib(a, 1) << 4 | nib(a, 2) << 8 | nib(a, 3) << 12 | nib(a, 4) << 16 | nib(
            a,
            5,
        ) << 20 | nib(a, 6) << 24 | nib(a, 7) << 28 | nib(a, 8) << 32 | nib(a, 9) << 36 | nib(
            a,
            10,
        ) << 40 | nib(a, 11) << 44 | nib(a, 12) << 48 | nib(a, 13) << 52 | nib(a, 14) << 56 | nib(
            a,
            15,
        ) << 60,
{
}

/// Masking with row `k` keeps the four cells of that row and empties the rest.
pub proof fn lemma_nib_row_mask(b: u64, k: u64, p: u64)
    by (bit_vector)
    requires
        k < 4,
        p < 16,
    ensures
        nib(b & (0xFFFFu64 << ((16 * k) as u64)), p) == (if p / 4 == k {
            nib(b, p)
        } else {
            0
        }),
{
}

/// Masking with column `k` keeps the four cells of that column and empties
/// the rest.
pub proof fn lemma_nib_column_mask(b: u64, k: u64, p: u64)
    by (bit_vector)
    requires
        k < 4,
        p < 16,
    ensures
        nib(b & (0x000F_000F_000F_000Fu64 << ((4 * k) as u64)), p) == (if p % 4 == k {
            nib(b, p)
        } else {
            0
        }),
{
}

/// Four codes packed side by side stay below 2 to the 16.
pub proof fn lemma_pack4_small(c0: u64, c1: u64, c2: u64, c3: u64)
    by (bit_vector)
    requires
        c0 <= 15,
        c1 <= 15,
        c2 <= 15,
        c3 <= 15,
    ensures
        pack4(c0, c1, c2, c3, 1) < 0x10000,
{
}

/// A code, taken as a word, sits in cell 0.
pub proof fn lemma_nib_of_code(c: u64, p: u64)
    by (bit_vector)
    requires
        c <= 15,
        p < 16,
    ensures
        nib(c, p) == (if p == 0 {
            c
        } else {
            0
        }),
{
}

/// Two words with the same sixteen cells are the same word.
pub proof fn lemma_nibs_determine(a: u64, b: u64)
    requires
        forall|p: u64| p < 16 ==> nib(a, p) == nib(b, p),
    ensures
        a == b,
{
    lemma_nibs_compose(a);
    lemma_nibs_compose(b);
}

} // verus!
