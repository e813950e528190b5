//! The transition tables: for each direction one map from a board that holds
//! a single line to the board that the swipe makes of it.

use std::collections::HashMap;
use vstd::prelude::*;
use crate::bits::{lemma_pack4_small, SQ_BITS};
use crate::grid::{
    cells, is_direction, is_line_key, lay, lemma_cells_determine, lemma_cells_is_grid,
    lemma_cells_of_lay, lies_in_line, line_of, line_through, place_in_line, square, stride_of,
    swiped,
};
use crate::line::{
    is_line, lemma_row_cells_is_line, lemma_row_cells_of_pack, lemma_slide_is_line, pack_row,
    reverse_row, reversed, row_cells, slide_cells, slide_row, stride_row, BOARD_SIZE,
};

verus! {

broadcast use vstd::std_specs::hash::group_hash_axioms;

/// Number of values that the four cells of a line can take together.
pub const LINE_COUNT: u64 = 0x10000;

/// The map is the table of the direction: its keys are the boards that hold
/// tiles on at most one line of that direction, and each is answered with
/// the board after the swipe.
pub open spec fn is_table(m: Map<u64, u64>, dir: int) -> bool {
    &&& forall|key: u64| #[trigger] is_line_key(key, dir) ==> m.contains_key(key)
    &&& forall|key: u64| #[trigger]
        m.contains_key(key) ==> is_line_key(key, dir) && cells(m[key]) == swiped(cells(key), dir)
}

/// Every entry of the map belongs to the table of the direction.
pub open spec fn within_table(m: Map<u64, u64>, dir: int) -> bool {
    forall|key: u64| #[trigger]
        m.contains_key(key) ==> is_line_key(key, dir) && cells(m[key]) == swiped(cells(key), dir)
}

/// Swiping a board that holds one line slides that line where it lies.
pub proof fn lemma_lay_of_slide(c: Seq<nat>, dir: int, k: int)
    requires
        is_line(c),
        is_direction(dir),
        0 <= k < 4,
    ensures
        cells(lay(slide_cells(c), dir, k)) =~= swiped(cells(lay(c, dir, k)), dir),
{
    let key = lay(c, dir, k);
    let val = lay(slide_cells(c), dir, k);
    lemma_slide_is_line(c);
    lemma_cells_of_lay(c, dir, k);
    lemma_cells_of_lay(slide_cells(c), dir, k);
    assert forall|p: int| 0 <= p < 16 implies cells(val)[p] == swiped(cells(key), dir)[p] by {
        let on = line_through(dir, p);
        let l = line_of(cells(key), dir, on);
        assert forall|j: int| 0 <= j < 4 implies l[j] == (if on == k {
            c[j]
        } else {
            0
        }) by {
            let sq = square(dir, on, j);
            assert(line_through(dir, sq) == on);
            assert(place_in_line(dir, sq) == j);
            assert(l[j] == cells(key)[sq]);
        }
        if on == k {
            assert(l =~= c);
        } else {
            assert(slide_cells(l) =~= seq![0nat, 0nat, 0nat, 0nat]);
        }
    }
}

/// A board with tiles on one line only is that line laid where it lies.
pub proof fn lemma_line_key_is_laid(key: u64, dir: int, k: int)
    requires
        is_direction(dir),
        0 <= k < 4,
        lies_in_line(key, dir, k),
    ensures
        is_line(line_of(cells(key), dir, k)),
        key == lay(line_of(cells(key), dir, k), dir, k),
{
    let c = line_of(cells(key), dir, k);
    lemma_cells_is_grid(key);
    assert(is_line(c));
    lemma_cells_of_lay(c, dir, k);
    assert forall|p: int| 0 <= p < 16 implies cells(key)[p] == cells(lay(c, dir, k))[p] by {
        if line_through(dir, p) == k {
            assert(square(dir, k, place_in_line(dir, p)) == p);
        }
    }
    lemma_cells_determine(key, lay(c, dir, k));
}

/// The table of one direction. Every line is slid once and stored under each
/// of the four places on the board where a line of that direction can lie.
pub fn build_table(dir: usize) -> (table: HashMap<u64, u64>)
    requires
        dir < 4,
    ensures
        is_table(table@, dir as int),
{
    let stride: usize = if dir & 1 == 0 {
        1
    } else {
        BOARD_SIZE
    };
    assert(dir & 1 == 0 <==> dir % 2 == 0) by (bit_vector);
    let gap: u64 = SQ_BITS * ((BOARD_SIZE + 1 - stride) as u64);
    let mut table: HashMap<u64, u64> = HashMap::new();
    let mut row: u64 = 0;
    while row < LINE_COUNT
        invariant
            dir < 4,
            stride == stride_of(dir as int),
            gap == 4 * (5 - stride),
            row <= LINE_COUNT,
            within_table(table@, dir as int),
            forall|r: u64, k: int|
                r < row && 0 <= k < 4 ==> table@.contains_key(
                    #[trigger] lay(row_cells(r, 1), dir as int, k),
                ),
        decreases LINE_COUNT - row,
    {
        let ghost c = row_cells(row, 1);
        let mut strided: u64 = stride_row(row, stride);
        let mut slided: u64 = slide_row(strided, stride);
        proof {
            lemma_row_cells_is_line(row, 1);
            lemma_slide_is_line(c);
            lemma_row_cells_of_pack(c, stride as u64);
            assert(row_cells(strided, stride as u64) == c);
            lemma_row_cells_of_pack(slide_cells(c), stride as u64);
        }
        if dir > 1 {
            strided = reverse_row(strided, stride);
            slided = reverse_row(slided, stride);
        }
        assert(strided == pack_row(if dir < 2 { c } else { reversed(c) }, stride as u64));
        assert(slided == pack_row(
            if dir < 2 { slide_cells(c) } else { reversed(slide_cells(c)) },
            stride as u64,
        ));
        let mut shift: u64 = 0;
        while shift < 4
            invariant
                dir < 4,
                stride == stride_of(dir as int),
                gap == 4 * (5 - stride),
                shift <= 4,
                row < LINE_COUNT,
                c == row_cells(row, 1),
                is_line(c),
                strided == pack_row(if dir < 2 { c } else { reversed(c) }, stride as u64),
                slided == pack_row(
                    if dir < 2 { slide_cells(c) } else { reversed(slide_cells(c)) },
                    stride as u64,
                ),
                within_table(table@, dir as int),
                forall|r: u64, k: int|
                    r < row && 0 <= k < 4 ==> table@.contains_key(
                        #[trigger] lay(row_cells(r, 1), dir as int, k),
                    ),
                forall|k: int|
                    0 <= k < shift ==> table@.contains_key(#[trigger] lay(c, dir as int, k)),
            decreases 4 - shift,
        {
            assert(shift * gap == 4 * (shift * (5 - stride)) && shift * gap <= 48)
                by (nonlinear_arith)
                requires
                    shift < 4,
                    gap == 4 * (5 - stride),
                    stride == 1 || stride == 4,
            ;
            let by: u64 = shift * gap;
            let key: u64 = strided << by;
            let val: u64 = slided << by;
            proof {
                assert(key == lay(c, dir as int, shift as int));
                assert(val == lay(slide_cells(c), dir as int, shift as int));
                lemma_lay_of_slide(c, dir as int, shift as int);
                lemma_cells_of_lay(c, dir as int, shift as int);
                assert(lies_in_line(key, dir as int, shift as int));
            }
            table.insert(key, val);
            shift += 1;
        }
        row += 1;
    }
    proof {
        assert forall|key: u64| #[trigger] is_line_key(key, dir as int) implies table@.contains_key(
            key,
        ) by {
            let k = choose|k: int| 0 <= k < 4 && #[trigger] lies_in_line(key, dir as int, k);
            let c = line_of(cells(key), dir as int, k);
            lemma_line_key_is_laid(key, dir as int, k);
            let r = pack_row(c, 1);
            lemma_pack4_small(c[0] as u64, c[1] as u64, c[2] as u64, c[3] as u64);
            lemma_row_cells_of_pack(c, 1);
            assert(row_cells(r, 1) == c);
            assert(table@.contains_key(lay(row_cells(r, 1), dir as int, k)));
        }
    }
    table
}

} // verus!
