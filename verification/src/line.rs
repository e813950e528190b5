//! One line of the board: four cells in the order in which a swipe meets
//! them, the cell that the tiles are pushed toward first.

use vstd::prelude::*;
use crate::bits::{code_at, lemma_nib_small, lemma_pack4, nib, pack4, SQ_BITS};

verus! {

/// Cells on a side of the board, and so in a line.
pub const BOARD_SIZE: usize = 4;

/// The largest code that a cell can hold.
pub const TOP_CODE: u64 = 15;

/// The four cells of a line that lies in `row` with its first cell at the low
/// end and `stride` cells from each cell to the next.
pub open spec fn row_cells(row: u64, stride: u64) -> Seq<nat> {
    Seq::new(4, |j: int| nib(row, (j * stride) as u64) as nat)
}

/// The word that holds the line `c` with `stride` cells from each cell to the
/// next, and nothing else.
pub open spec fn pack_row(c: Seq<nat>, stride: u64) -> u64
    recommends
        c.len() == 4,
{
    pack4(c[0] as u64, c[1] as u64, c[2] as u64, c[3] as u64, stride)
}

/// Every cell of the line holds a code that fits a cell.
pub open spec fn is_line(c: Seq<nat>) -> bool {
    c.len() == 4 && forall|j: int| 0 <= j < 4 ==> c[j] <= TOP_CODE
}

/// The line read from its other end.
pub open spec fn reversed(c: Seq<nat>) -> Seq<nat> {
    Seq::new(4, |j: int| c[3 - j])
}

/// Tiles `a` and `b` combine into one: a 1 with a 2, or two equal tiles from
/// 3 up. Two tiles of the top code stay apart, having no code for their double.
pub open spec fn can_merge(a: nat, b: nat) -> bool {
    (a == 1 && b == 2) || (a == 2 && b == 1) || (a == b && 3 <= a < TOP_CODE)
}

/// The cell holding `a` takes what the next cell holds, `b`: it is empty, or
/// the two tiles combine.
pub open spec fn gives_way(a: nat, b: nat) -> bool {
    a == 0 || can_merge(a, b)
}

/// What the cell holds after taking `b` in.
pub open spec fn joined(a: nat, b: nat) -> nat {
    if a == 0 {
        b
    } else if a + b == 3 {
        3
    } else {
        a + 1
    }
}

/// One swipe applied to a line. The first cell that gives way takes in its
/// neighbour, every cell behind moves up by one, and the last cell is left
/// empty; the cells before it are blocked and stay. If no cell gives way the
/// line is unchanged.
pub open spec fn slide_cells(c: Seq<nat>) -> Seq<nat>
    recommends
        c.len() == 4,
{
    if gives_way(c[0], c[1]) {
        seq![joined(c[0], c[1]), c[2], c[3], 0]
    } else if gives_way(c[1], c[2]) {
        seq![c[0], joined(c[1], c[2]), c[3], 0]
    } else if gives_way(c[2], c[3]) {
        seq![c[0], c[1], joined(c[2], c[3]), 0]
    } else {
        c
    }
}

/// The swipe combines two tiles of the line.
pub open spec fn merges(c: Seq<nat>) -> bool
    recommends
        c.len() == 4,
{
    if gives_way(c[0], c[1]) {
        c[0] != 0
    } else if gives_way(c[1], c[2]) {
        c[1] != 0
    } else if gives_way(c[2], c[3]) {
        c[2] != 0
    } else {
        false
    }
}

/// Number of tiles on the line.
pub open spec fn tile_count(c: Seq<nat>) -> nat
    recommends
        c.len() == 4,
{
    ((if c[0] != 0 { 1nat } else { 0 }) + (if c[1] != 0 { 1nat } else { 0 })
        + (if c[2] != 0 { 1nat } else { 0 }) + (if c[3] != 0 { 1nat } else { 0 })) as nat
}

/// No swipe moves anything on the line: its tiles sit packed at the front
/// and no two neighbours combine.
pub open spec fn settled(c: Seq<nat>) -> bool
    recommends
        c.len() == 4,
{
    &&& !can_merge(c[0], c[1]) && (c[0] == 0 ==> c[1] == 0)
    &&& !can_merge(c[1], c[2]) && (c[1] == 0 ==> c[2] == 0)
    &&& !can_merge(c[2], c[3]) && (c[2] == 0 ==> c[3] == 0)
}

/// The cells of a packed line are the line.
pub proof fn lemma_row_cells_of_pack(c: Seq<nat>, stride: u64)
    requires
        is_line(c),
        stride == 1 || stride == 4,
    ensures
        row_cells(pack_row(c, stride), stride) =~= c,
{
    lemma_pack4(c[0] as u64, c[1] as u64, c[2] as u64, c[3] as u64, stride);
}

/// The cells read from a word form a line.
pub proof fn lemma_row_cells_is_line(row: u64, stride: u64)
    ensures
        is_line(row_cells(row, stride)),
{
    assert forall|j: int| 0 <= j < 4 implies row_cells(row, stride)[j] <= TOP_CODE by {
        lemma_nib_small(row, (j * stride) as u64);
    }
}

/// A swipe leaves a line a line.
pub proof fn lemma_slide_is_line(c: Seq<nat>)
    requires
        is_line(c),
    ensures
        is_line(slide_cells(c)),
{
}

/// Whether the cell holding `a` takes in `b`.
fn takes(a: u64, b: u64) -> (r: bool)
    ensures
        r == gives_way(a as nat, b as nat),
{
    a == 0 || (a == 1 && b == 2) || (a == 2 && b == 1) || (a == b && 3 <= a && a < TOP_CODE)
}

/// What the cell holding `a` holds after taking in `b`.
fn join(a: u64, b: u64) -> (r: u64)
    requires
        a <= TOP_CODE,
        b <= TOP_CODE,
        gives_way(a as nat, b as nat),
    ensures
        r == joined(a as nat, b as nat),
        r <= TOP_CODE,
{
    if a == 0 {
        b
    } else if a + b == 3 {
        3
    } else {
        a + 1
    }
}

/// The word that holds four codes `stride` cells apart.
fn pack(c0: u64, c1: u64, c2: u64, c3: u64, stride: usize) -> (out: u64)
    requires
        stride == 1 || stride == 4,
    ensures
        out == pack4(c0, c1, c2, c3, stride as u64),
{
    let step: u64 = SQ_BITS * (stride as u64);
    c0 | (c1 << step) | (c2 << (2 * step)) | (c3 << (3 * step))
}

/// Spreads the line in the low four cells of `row` so that its cells lie
/// `stride` cells apart: unchanged for a row of the board, down the first
/// column for `stride` 4.
pub fn stride_row(row: u64, stride: usize) -> (out: u64)
    requires
        stride == 1 || stride == BOARD_SIZE,
    ensures
        out == pack_row(row_cells(row, 1), stride as u64),
{
    let c0: u64 = code_at(row, 0);
    let c1: u64 = code_at(row, 1);
    let c2: u64 = code_at(row, 2);
    let c3: u64 = code_at(row, 3);
    pack(c0, c1, c2, c3, stride)
}

/// Turns round the line that lies in `row` with `stride` cells between its
/// cells. Whatever else `row` holds is dropped.
pub fn reverse_row(row: u64, stride: usize) -> (out: u64)
    requires
        stride == 1 || stride == BOARD_SIZE,
    ensures
        out == pack_row(reversed(row_cells(row, stride as u64)), stride as u64),
{
    let s: u64 = stride as u64;
    let c0: u64 = code_at(row, 0);
    let c1: u64 = code_at(row, s);
    let c2: u64 = code_at(row, 2 * s);
    let c3: u64 = code_at(row, 3 * s);
    pack(c3, c2, c1, c0, stride)
}

/// One swipe toward the low end, applied to the line that lies in `row` with
/// `stride` cells between its cells. Whatever else `row` holds is dropped.
pub fn slide_row(row: u64, stride: usize) -> (out: u64)
    requires
        stride == 1 || stride == BOARD_SIZE,
    ensures
        out == pack_row(slide_cells(row_cells(row, stride as u64)), stride as u64),
{
    let s: u64 = stride as u64;
    let c0: u64 = code_at(row, 0);
    let c1: u64 = code_at(row, s);
    let c2: u64 = code_at(row, 2 * s);
    let c3: u64 = code_at(row, 3 * s);
    if takes(c0, c1) {
        pack(join(c0, c1), c2, c3, 0, stride)
    } else if takes(c1, c2) {
        pack(c0, join(c1, c2), c3, 0, stride)
    } else if takes(c2, c3) {
        pack(c0, c1, join(c2, c3), 0, stride)
    } else {
        pack(c0, c1, c2, c3, stride)
    }
}

/// A swipe changes nothing exactly on a settled line.
pub proof fn lemma_slide_fixed_point(c: Seq<nat>)
    requires
        c.len() == 4,
    ensures
        slide_cells(c) =~= c <==> settled(c),
{
    if gives_way(c[0], c[1]) {
        assert(slide_cells(c)[0] == joined(c[0], c[1]));
        assert(slide_cells(c)[3] == 0);
        if slide_cells(c) =~= c {
            assert(c[3] == 0 && c[2] == c[3] && c[1] == c[2]);
        }
    } else if gives_way(c[1], c[2]) {
        assert(slide_cells(c)[1] == joined(c[1], c[2]));
        assert(slide_cells(c)[3] == 0);
        if slide_cells(c) =~= c {
            assert(c[3] == 0 && c[2] == c[3]);
        }
    } else if gives_way(c[2], c[3]) {
        assert(slide_cells(c)[2] == joined(c[2], c[3]));
        assert(slide_cells(c)[3] == 0);
    }
}

/// A second swipe in the same direction changes nothing more, on every line
/// that the first swipe leaves settled. On any other line it does: a tile
/// moves one cell in a swipe, and may have further to go.
pub proof fn lemma_slide_twice(c: Seq<nat>)
    requires
        c.len() == 4,
        settled(slide_cells(c)),
    ensures
        slide_cells(slide_cells(c)) =~= slide_cells(c),
{
    lemma_slide_fixed_point(slide_cells(c));
}

/// Three swipes in the same direction settle every line: a fourth changes
/// nothing.
pub proof fn lemma_slide_settles(c: Seq<nat>)
    requires
        c.len() == 4,
    ensures
        settled(slide_cells(slide_cells(slide_cells(c)))),
{
    let once = slide_cells(c);
    let twice = slide_cells(once);
    let thrice = slide_cells(twice);
    assert(once.len() == 4 && twice.len() == 4 && thrice.len() == 4);
    if gives_way(c[0], c[1]) {
        assert(once[3] == 0);
    } else if gives_way(c[1], c[2]) {
        assert(once[3] == 0);
    } else if gives_way(c[2], c[3]) {
        assert(once[3] == 0);
    } else {
        lemma_slide_fixed_point(c);
    }
    if gives_way(once[0], once[1]) {
        assert(twice[3] == 0 && twice[2] == 0);
    } else if gives_way(once[1], once[2]) {
        assert(twice[3] == 0 && twice[2] == 0);
    } else if gives_way(once[2], once[3]) {
        assert(twice[3] == 0 && twice[2] == 0);
    }
}

/// A swipe never adds a tile to a line: it takes one away when it combines
/// two, and keeps their number otherwise.
pub proof fn lemma_slide_tile_count(c: Seq<nat>)
    requires
        c.len() == 4,
    ensures
        tile_count(slide_cells(c)) == tile_count(c) - (if merges(c) { 1nat } else { 0 }),
        tile_count(slide_cells(c)) <= tile_count(c),
{
}

} // verus!
