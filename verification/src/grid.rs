//! The board as sixteen cells, the lines that a swipe runs along, and what a
//! swipe makes of the whole board.

use vstd::prelude::*;
use crate::bits::{
    code_at, lemma_nib_column_mask, lemma_nib_of_code, lemma_nib_or, lemma_nib_row_mask,
    lemma_nib_shl, lemma_nib_small, lemma_nibs_determine, lemma_pack4, nib, SQ_BITS,
};
use crate::line::{is_line, pack_row, reversed, slide_cells, BOARD_SIZE, TOP_CODE};

verus! {

/// The sixteen cells of a board, row by row from the top left.
pub open spec fn cells(board: u64) -> Seq<nat> {
    Seq::new(16, |p: int| nib(board, p as u64) as nat)
}

/// Sixteen codes that each fit a cell.
pub open spec fn is_grid(c: Seq<nat>) -> bool {
    c.len() == 16 && forall|p: int| 0 <= p < 16 ==> c[p] <= TOP_CODE
}

/// Direction 0 pushes the tiles left, 1 up, 2 right, 3 down.
pub open spec fn is_direction(dir: int) -> bool {
    0 <= dir < 4
}

/// A swipe left or right runs along the rows, one up or down along the columns.
pub open spec fn along_rows(dir: int) -> bool {
    dir % 2 == 0
}

/// Cells from one cell of a line to the next: 1 along a row, 4 down a column.
pub open spec fn stride_of(dir: int) -> int {
    if along_rows(dir) {
        1
    } else {
        4
    }
}

/// The cell of the board that is cell `j` of line `k`, counted from the edge
/// that direction `dir` pushes toward.
pub open spec fn square(dir: int, k: int, j: int) -> int {
    let at = if dir < 2 {
        j
    } else {
        3 - j
    };
    if along_rows(dir) {
        4 * k + at
    } else {
        4 * at + k
    }
}

/// The line of direction `dir` that cell `p` of the board lies on.
pub open spec fn line_through(dir: int, p: int) -> int {
    if along_rows(dir) {
        p / 4
    } else {
        p % 4
    }
}

/// Where on its line cell `p` lies, counted from the edge pushed toward.
pub open spec fn place_in_line(dir: int, p: int) -> int {
    let at = if along_rows(dir) {
        p % 4
    } else {
        p / 4
    };
    if dir < 2 {
        at
    } else {
        3 - at
    }
}

/// Line `k` of the grid for a swipe in direction `dir`.
pub open spec fn line_of(c: Seq<nat>, dir: int, k: int) -> Seq<nat> {
    Seq::new(4, |j: int| c[square(dir, k, j)])
}

/// The grid after a swipe in direction `dir`: each of the four lines slides
/// by itself.
pub open spec fn swiped(c: Seq<nat>, dir: int) -> Seq<nat> {
    Seq::new(
        16,
        |p: int| slide_cells(line_of(c, dir, line_through(dir, p)))[place_in_line(dir, p)],
    )
}

/// The word holds nothing outside line `k` of direction `dir`.
pub open spec fn lies_in_line(key: u64, dir: int, k: int) -> bool {
    forall|p: int| 0 <= p < 16 && line_through(dir, p) != k ==> #[trigger] cells(key)[p] == 0
}

/// The word holds tiles on at most one line of direction `dir`.
pub open spec fn is_line_key(key: u64, dir: int) -> bool {
    exists|k: int| 0 <= k < 4 && #[trigger] lies_in_line(key, dir, k)
}

/// The bits of line `k` of direction `dir`.
pub open spec fn line_mask(dir: int, k: int) -> u64 {
    if along_rows(dir) {
        0xFFFFu64 << ((16 * k) as u64)
    } else {
        0x000F_000F_000F_000Fu64 << ((4 * k) as u64)
    }
}

/// The word that holds the line `c` as line `k` of direction `dir`, and
/// nothing else.
pub open spec fn lay(c: Seq<nat>, dir: int, k: int) -> u64 {
    let s = stride_of(dir);
    let row = pack_row(
        if dir < 2 {
            c
        } else {
            reversed(c)
        },
        s as u64,
    );
    row << ((4 * (k * (5 - s))) as u64)
}

/// The cells of a board form a grid.
pub proof fn lemma_cells_is_grid(board: u64)
    ensures
        is_grid(cells(board)),
{
    assert forall|p: int| 0 <= p < 16 implies cells(board)[p] <= TOP_CODE by {
        lemma_nib_small(board, p as u64);
    }
}

/// Boards with the same cells are the same board.
pub proof fn lemma_cells_determine(a: u64, b: u64)
    requires
        cells(a) =~= cells(b),
    ensures
        a == b,
{
    assert forall|p: u64| p < 16 implies nib(a, p) == nib(b, p) by {
        assert(cells(a)[p as int] == cells(b)[p as int]);
    }
    lemma_nibs_determine(a, b);
}

/// A line laid on the board is found where it was laid, and the rest of the
/// board is empty.
pub proof fn lemma_cells_of_lay(c: Seq<nat>, dir: int, k: int)
    requires
        is_line(c),
        is_direction(dir),
        0 <= k < 4,
    ensures
        forall|p: int|
            0 <= p < 16 ==> #[trigger] cells(lay(c, dir, k))[p] == (if line_through(dir, p) == k {
                c[place_in_line(dir, p)]
            } else {
                0
            }),
{
    let s = stride_of(dir);
    let d = if dir < 2 {
        c
    } else {
        reversed(c)
    };
    let row = pack_row(d, s as u64);
    let q = k * (5 - s);
    lemma_pack4(d[0] as u64, d[1] as u64, d[2] as u64, d[3] as u64, s as u64);
    assert forall|p: int| 0 <= p < 16 implies #[trigger] cells(lay(c, dir, k))[p] == (
    if line_through(dir, p) == k {
        c[place_in_line(dir, p)]
    } else {
        0
    }) by {
        lemma_nib_shl(row, p as u64, q as u64);
        if p >= q {
            let r = (p - q) as u64;
            assert(nib(row << ((4 * q) as u64), p as u64) == nib(row, r));
            if r == 0 {
            } else if r == s {
            } else if r == 2 * s {
            } else if r == 3 * s {
            } else {
                assert(nib(row, r) == 0);
            }
        }
    }
}

/// A board masked to one line keeps that line and nothing else.
pub proof fn lemma_cells_of_masked(board: u64, dir: int, k: int)
    requires
        is_direction(dir),
        0 <= k < 4,
    ensures
        forall|p: int|
            0 <= p < 16 ==> #[trigger] cells(board & line_mask(dir, k))[p] == (if line_through(
                dir,
                p,
            ) == k {
                cells(board)[p]
            } else {
                0
            }),
        lies_in_line(board & line_mask(dir, k), dir, k),
        is_line_key(board & line_mask(dir, k), dir),
{
    assert forall|p: int| 0 <= p < 16 implies #[trigger] cells(board & line_mask(dir, k))[p] == (
    if line_through(dir, p) == k {
        cells(board)[p]
    } else {
        0
    }) by {
        if along_rows(dir) {
            lemma_nib_row_mask(board, k as u64, p as u64);
        } else {
            lemma_nib_column_mask(board, k as u64, p as u64);
        }
    }
    assert(lies_in_line(board & line_mask(dir, k), dir, k));
}

/// The cell is on the edge that direction `dir` pushes away from, and empty.
pub open spec fn is_opening(c: Seq<nat>, dir: int, p: int) -> bool {
    0 <= p < 16 && place_in_line(dir, p) == 3 && c[p] == 0
}

/// A swipe that changes the board leaves an empty cell on the edge that it
/// pushes away from.
pub proof fn lemma_swipe_opens(c: Seq<nat>, dir: int) -> (p: int)
    requires
        is_grid(c),
        is_direction(dir),
        swiped(c, dir) != c,
    ensures
        is_opening(swiped(c, dir), dir, p),
{
    assert(!(swiped(c, dir) =~= c));
    let q = choose|q: int| 0 <= q < 16 && swiped(c, dir)[q] != c[q];
    let k = line_through(dir, q);
    let l = line_of(c, dir, k);
    assert(l[place_in_line(dir, q)] == c[square(dir, k, place_in_line(dir, q))]);
    assert(square(dir, k, place_in_line(dir, q)) == q);
    assert(slide_cells(l)[3] == 0);
    let p = square(dir, k, 3);
    assert(line_through(dir, p) == k);
    assert(place_in_line(dir, p) == 3);
    p
}

/// The largest code on the grid.
pub open spec fn top_code(c: Seq<nat>) -> nat
    decreases c.len(),
{
    if c.len() == 0 {
        0
    } else if c.last() >= top_code(c.drop_last()) {
        c.last()
    } else {
        top_code(c.drop_last())
    }
}

/// No code on the grid is above `top_code`.
pub proof fn lemma_top_code_bounds(c: Seq<nat>, p: int)
    requires
        0 <= p < c.len(),
    ensures
        c[p] <= top_code(c),
    decreases c.len(),
{
    if p < c.len() - 1 {
        lemma_top_code_bounds(c.drop_last(), p);
    }
}

/// `top_code` stays within any bound that holds of every cell.
pub proof fn lemma_top_code_within(c: Seq<nat>, bound: nat)
    requires
        forall|p: int| 0 <= p < c.len() ==> c[p] <= bound,
    ensures
        top_code(c) <= bound,
    decreases c.len(),
{
    if c.len() > 0 {
        lemma_top_code_within(c.drop_last(), bound);
    }
}

/// The largest value of a grid is on the grid.
pub proof fn lemma_top_code_is_there(c: Seq<nat>)
    requires
        c.len() > 0,
    ensures
        exists|p: int| 0 <= p < c.len() && c[p] == top_code(c),
    decreases c.len(),
{
    if c.len() == 1 {
        assert(c.drop_last().len() == 0);
        assert(c[0] == top_code(c));
    } else if c.last() >= top_code(c.drop_last()) {
        assert(c[c.len() - 1] == top_code(c));
    } else {
        lemma_top_code_is_there(c.drop_last());
        let rest = c.drop_last();
        let p = choose|p: int| 0 <= p < rest.len() && rest[p] == top_code(rest);
        assert(c[p] == top_code(c));
    }
}

/// The empty cells on the edge that direction `dir` pushes away from, in
/// rising order.
pub fn open_squares(board: u64, dir: usize) -> (open: Vec<usize>)
    requires
        dir < 4,
    ensures
        forall|p: int|
            open@.contains(p as usize) && 0 <= p < 16 <==> is_opening(cells(board), dir as int, p),
        forall|i: int| 0 <= i < open@.len() ==> open@[i] < 16,
        forall|i: int, j: int| 0 <= i < j < open@.len() ==> open@[i] < open@[j],
{
    let mut open: Vec<usize> = Vec::new();
    let mut k: usize = 0;
    while k < BOARD_SIZE
        invariant
            dir < 4,
            k <= 4,
            forall|i: int| 0 <= i < open@.len() ==> open@[i] < 16,
            forall|i: int|
                0 <= i < open@.len() ==> is_opening(
                    cells(board),
                    dir as int,
                    #[trigger] open@[i] as int,
                )
                    && line_through(dir as int, open@[i] as int) < k,
            forall|p: int|
                is_opening(cells(board), dir as int, p) && line_through(dir as int, p) < k
                    ==> open@.contains(p as usize),
            forall|i: int, j: int| 0 <= i < j < open@.len() ==> open@[i] < open@[j],
        decreases 4 - k,
    {
        let end: usize = if dir == 0 {
            4 * k + 3
        } else if dir == 1 {
            12 + k
        } else if dir == 2 {
            4 * k
        } else {
            k
        };
        assert(end == square(dir as int, k as int, 3));
        let ghost before = open@;
        if code_at(board, end as u64) == 0 {
            open.push(end);
            proof {
                assert(open@[before.len() as int] == end);
                assert forall|p: int|
                    is_opening(cells(board), dir as int, p) && line_through(dir as int, p) < k
                        + 1 implies open@.contains(p as usize) by {
                    if line_through(dir as int, p) < k {
                        let i = choose|i: int| 0 <= i < before.len() && before[i] == p as usize;
                        assert(open@[i] == p as usize);
                    } else {
                        assert(p == end);
                    }
                }
            }
        } else {
            assert forall|p: int|
                is_opening(cells(board), dir as int, p) && line_through(dir as int, p) < k
                    + 1 implies open@.contains(p as usize) by {
                if line_through(dir as int, p) >= k {
                    assert(p == end);
                }
            }
        }
        k += 1;
    }
    proof {
        assert forall|p: int| open@.contains(p as usize) && 0 <= p < 16 implies is_opening(
            cells(board),
            dir as int,
            p,
        ) by {
            let i = choose|i: int| 0 <= i < open@.len() && open@[i] == p as usize;
            assert(is_opening(cells(board), dir as int, open@[i] as int));
        }
    }
    open
}

/// The board with `card` in cell `at`; the board as it is if there is no cell.
pub fn place_card(board: u64, card: u64, at: Option<usize>) -> (new: u64)
    requires
        card <= TOP_CODE,
        at is Some ==> at->0 < 16 && cells(board)[at->0 as int] == 0,
    ensures
        cells(new) == (match at {
            Some(p) => cells(board).update(p as int, card as nat),
            None => cells(board),
        }),
{
    match at {
        Some(p) => {
            let new: u64 = board | (card << (SQ_BITS * (p as u64)));
            proof {
                assert forall|q: int| 0 <= q < 16 implies cells(new)[q] == cells(board).update(
                    p as int,
                    card as nat,
                )[q] by {
                    lemma_nib_shl(card, q as u64, p as u64);
                    lemma_nib_or(board, card << ((4 * p) as u64), q as u64);
                    if q >= p {
                        lemma_nib_of_code(card, (q - p) as u64);
                    }
                }
                assert(cells(new) =~= cells(board).update(p as int, card as nat));
            }
            new
        },
        None => board,
    }
}

/// The largest code on the board.
pub fn highest_on(board: u64) -> (top: u64)
    ensures
        top == top_code(cells(board)),
{
    let mut top: u64 = 0;
    let mut p: u64 = 0;
    while p < 16
        invariant
            p <= 16,
            top == top_code(cells(board).take(p as int)),
        decreases 16 - p,
    {
        let code: u64 = code_at(board, p);
        proof {
            let now = cells(board).take(p + 1);
            assert(now.drop_last() =~= cells(board).take(p as int));
            assert(now.last() == code);
        }
        if code >= top {
            top = code;
        }
        p += 1;
    }
    assert(cells(board).take(16) =~= cells(board));
    top
}

} // verus!
