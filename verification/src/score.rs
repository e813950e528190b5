//! The score of a board: every tile from 3 up counts three times as much as
//! the tile that was doubled to make it.

use vstd::prelude::*;
use vstd::seq_lib::{to_multiset_contains, to_multiset_len, to_multiset_remove};
use crate::bits::code_at;
use crate::grid::{cells, is_grid, lemma_cells_is_grid};
use crate::line::TOP_CODE;

verus! {

/// The score of the largest tile a cell can hold.
pub const TOP_TILE_SCORE: u32 = 1594323;

/// 3 to the power `k`.
pub open spec fn power_of_three(k: nat) -> nat
    decreases k,
{
    if k == 0 {
        1
    } else {
        3 * power_of_three((k - 1) as nat)
    }
}

/// What one tile scores: nothing for an empty cell, a 1 or a 2; 3 for a 3,
/// and three times as much for each doubling.
pub open spec fn tile_score(code: nat) -> nat {
    if code < 3 {
        0
    } else {
        power_of_three((code - 2) as nat)
    }
}

/// The scores of all tiles together.
pub open spec fn score_of(c: Seq<nat>) -> nat
    decreases c.len(),
{
    if c.len() == 0 {
        0
    } else {
        score_of(c.drop_last()) + tile_score(c.last())
    }
}

/// The powers of three up to the score of the largest tile.
pub proof fn lemma_powers_of_three()
    ensures
        power_of_three(0) == 1,
        power_of_three(1) == 3,
        power_of_three(2) == 9,
        power_of_three(3) == 27,
        power_of_three(4) == 81,
        power_of_three(5) == 243,
        power_of_three(6) == 729,
        power_of_three(7) == 2187,
        power_of_three(8) == 6561,
        power_of_three(9) == 19683,
        power_of_three(10) == 59049,
        power_of_three(11) == 177147,
        power_of_three(12) == 531441,
        power_of_three(13) == TOP_TILE_SCORE,
        power_of_three(14) == 4782969,
        power_of_three(15) == 14348907,
        power_of_three(16) == 43046721,
        power_of_three(17) == 129140163,
        power_of_three(18) == 387420489,
        power_of_three(19) == 1162261467,
        power_of_three(20) == 3486784401,
{
    reveal_with_fuel(power_of_three, 22);
}

/// No tile scores more than the largest.
pub proof fn lemma_tile_score_bound(code: nat)
    requires
        code <= TOP_CODE,
    ensures
        tile_score(code) <= TOP_TILE_SCORE,
{
    lemma_powers_of_three();
}

/// Taking one tile off takes its score off.
pub proof fn lemma_score_without(c: Seq<nat>, i: int)
    requires
        0 <= i < c.len(),
    ensures
        score_of(c) == score_of(c.remove(i)) + tile_score(c[i]),
    decreases c.len(),
{
    if i == c.len() - 1 {
        assert(c.remove(i) =~= c.drop_last());
    } else {
        lemma_score_without(c.drop_last(), i);
        assert(c.remove(i).drop_last() =~= c.drop_last().remove(i));
        assert(c.remove(i).last() == c.last());
    }
}

/// The score does not depend on where the tiles lie: two grids that hold
/// the same tiles, each as often, score the same.
pub proof fn lemma_score_of_rearranged(a: Seq<nat>, b: Seq<nat>)
    requires
        a.to_multiset() == b.to_multiset(),
    ensures
        score_of(a) == score_of(b),
    decreases a.len(),
{
    broadcast use vstd::multiset::group_multiset_axioms;

    to_multiset_len(a);
    to_multiset_len(b);
    if a.len() > 0 {
        let last = a.last();
        to_multiset_contains(a, last);
        to_multiset_contains(b, last);
        assert(a.contains(last));
        let i = choose|i: int| 0 <= i < b.len() && b[i] == last;
        to_multiset_remove(a, a.len() - 1);
        to_multiset_remove(b, i);
        assert(a.remove(a.len() - 1) =~= a.drop_last());
        lemma_score_of_rearranged(a.drop_last(), b.remove(i));
        lemma_score_without(b, i);
    }
}

/// 3 to the power `k`.
pub fn pow3(k: u32) -> (r: u32)
    requires
        k <= 20,
    ensures
        r == power_of_three(k as nat),
{
    let mut r: u32 = 1;
    let mut i: u32 = 0;
    while i < k
        invariant
            i <= k <= 20,
            r == power_of_three(i as nat),
        decreases k - i,
    {
        proof {
            lemma_powers_of_three();
        }
        r = r * 3;
        i += 1;
    }
    r
}

/// The score of a board.
pub fn score_board(board: u64) -> (score: u32)
    ensures
        score == score_of(cells(board)),
{
    let ghost c = cells(board);
    proof {
        lemma_cells_is_grid(board);
    }
    let mut score: u32 = 0;
    let mut p: u64 = 0;
    while p < 16
        invariant
            p <= 16,
            c == cells(board),
            is_grid(c),
            score == score_of(c.take(p as int)),
            score <= p * TOP_TILE_SCORE,
        decreases 16 - p,
    {
        let code: u64 = code_at(board, p);
        proof {
            let now = c.take(p + 1);
            assert(now.drop_last() =~= c.take(p as int));
            assert(now.last() == code);
            lemma_tile_score_bound(code as nat);
        }
        if code >= 3 {
            score += pow3((code - 2) as u32);
        }
        p += 1;
    }
    assert(c.take(16) =~= c);
    score
}

} // verus!
