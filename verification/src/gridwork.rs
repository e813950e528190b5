//! Work on a grid of face values: its cells by row and column, its lines
//! read and written, and every line slid where it lies.

use vstd::prelude::*;
use crate::facegrid::{face_at, grid_cols, grid_faces, set_face, FaceGrid};
use crate::faces::{
    as_nats, lemma_changed_grid_moves_a_line, lemma_moved_line_changes_grid, moves,
    slide_face_line, slide_faces, swiped_faces, MAX_SAFE_FACE,
};
use crate::grid::{is_opening, line_of, line_through, place_in_line, square, top_code};

verus! {

/// Row and column of cell `j` of line `k`, counted from the edge that
/// direction `dir` pushes toward.
pub fn cell_of(dir: usize, k: usize, j: usize) -> (at: (usize, usize))
    requires
        dir < 4,
        k < 4,
        j < 4,
    ensures
        at.0 < 4,
        at.1 < 4,
        4 * at.0 + at.1 == square(dir as int, k as int, j as int),
{
    let along: usize = if dir < 2 {
        j
    } else {
        3 - j
    };
    if dir % 2 == 0 {
        (k, along)
    } else {
        (along, k)
    }
}

/// The face value in row `r` and column `c` of a grid of four by four.
pub(crate) fn read_cell(grid: &FaceGrid, r: usize, c: usize) -> (face: u32)
    requires
        grid_cols(*grid) == 4,
        grid_faces(*grid).len() == 16,
        r < 4,
        c < 4,
    ensures
        face == grid_faces(*grid)[4 * r + c],
{
    assert(r * grid_cols(*grid) == 4 * r) by (nonlinear_arith)
        requires
            grid_cols(*grid) == 4,
    ;
    face_at(grid, r, c)
}

/// Puts `face` in row `r` and column `c` of a grid of four by four.
pub(crate) fn write_cell(grid: &mut FaceGrid, r: usize, c: usize, face: u32)
    requires
        grid_cols(*old(grid)) == 4,
        grid_faces(*old(grid)).len() == 16,
        r < 4,
        c < 4,
    ensures
        grid_cols(*final(grid)) == 4,
        grid_faces(*final(grid)) == grid_faces(*old(grid)).update(4 * r + c, face),
        grid_faces(*final(grid)).len() == 16,
{
    assert(r * grid_cols(*grid) == 4 * r) by (nonlinear_arith)
        requires
            grid_cols(*grid) == 4,
    ;
    set_face(grid, r, c, face);
}

/// Line `k` of the grid for a swipe in direction `dir`.
pub(crate) fn read_line(grid: &FaceGrid, dir: usize, k: usize) -> (line: [u32; 4])
    requires
        grid_cols(*grid) == 4,
        grid_faces(*grid).len() == 16,
        dir < 4,
        k < 4,
    ensures
        as_nats(line@) == line_of(as_nats(grid_faces(*grid)), dir as int, k as int),
{
    let at0 = cell_of(dir, k, 0);
    let at1 = cell_of(dir, k, 1);
    let at2 = cell_of(dir, k, 2);
    let at3 = cell_of(dir, k, 3);
    let line: [u32; 4] = [
        read_cell(grid, at0.0, at0.1),
        read_cell(grid, at1.0, at1.1),
        read_cell(grid, at2.0, at2.1),
        read_cell(grid, at3.0, at3.1),
    ];
    assert(as_nats(line@) =~= line_of(as_nats(grid_faces(*grid)), dir as int, k as int));
    line
}

/// Puts `line` where line `k` of direction `dir` lies, and leaves the other
/// lines as they are.
pub(crate) fn write_line(grid: &mut FaceGrid, dir: usize, k: usize, line: [u32; 4])
    requires
        grid_cols(*old(grid)) == 4,
        grid_faces(*old(grid)).len() == 16,
        dir < 4,
        k < 4,
    ensures
        grid_cols(*final(grid)) == 4,
        grid_faces(*final(grid)).len() == 16,
        forall|p: int|
            0 <= p < 16 ==> #[trigger] grid_faces(*final(grid))[p] == (if line_through(dir as int, p)
                == k {
                line@[place_in_line(dir as int, p)]
            } else {
                grid_faces(*old(grid))[p]
            }),
{
    let at0 = cell_of(dir, k, 0);
    let at1 = cell_of(dir, k, 1);
    let at2 = cell_of(dir, k, 2);
    let at3 = cell_of(dir, k, 3);
    write_cell(grid, at0.0, at0.1, line[0]);
    write_cell(grid, at1.0, at1.1, line[1]);
    write_cell(grid, at2.0, at2.1, line[2]);
    write_cell(grid, at3.0, at3.1, line[3]);
    proof {
        assert forall|p: int| 0 <= p < 16 implies #[trigger] grid_faces(*final(grid))[p] == (
        if line_through(dir as int, p) == k {
            line@[place_in_line(dir as int, p)]
        } else {
            grid_faces(*old(grid))[p]
        }) by {
            if line_through(dir as int, p) == k {
                assert(square(dir as int, k as int, place_in_line(dir as int, p)) == p);
            }
        }
    }
}

/// The grid with line `k` of direction `dir` slid and the others as they are.
pub open spec fn with_line_slid(g: Seq<nat>, dir: int, k: int) -> Seq<nat> {
    Seq::new(
        16,
        |p: int|
            if line_through(dir, p) == k {
                slide_faces(line_of(g, dir, k))[place_in_line(dir, p)]
            } else {
                g[p]
            },
    )
}

/// The grid with the lines before line `k` slid and the others as they are.
pub open spec fn slid_up_to(g: Seq<nat>, dir: int, k: int) -> Seq<nat> {
    Seq::new(
        16,
        |p: int|
            if line_through(dir, p) < k {
                swiped_faces(g, dir)[p]
            } else {
                g[p]
            },
    )
}

/// Sliding line `k` after the lines before it is sliding the lines up to it.
pub proof fn lemma_slide_next_line(g: Seq<nat>, dir: int, k: int)
    requires
        g.len() == 16,
        0 <= dir < 4,
        0 <= k < 4,
    ensures
        with_line_slid(slid_up_to(g, dir, k), dir, k) =~= slid_up_to(g, dir, k + 1),
        line_of(slid_up_to(g, dir, k), dir, k) =~= line_of(g, dir, k),
{
    let now = slid_up_to(g, dir, k);
    assert forall|j: int| 0 <= j < 4 implies line_of(now, dir, k)[j] == line_of(g, dir, k)[j] by {
        let sq = square(dir, k, j);
        assert(line_through(dir, sq) == k);
        assert(now[sq] == g[sq]);
    }
    assert(line_of(now, dir, k) =~= line_of(g, dir, k));
    assert forall|p: int| 0 <= p < 16 implies with_line_slid(now, dir, k)[p] == slid_up_to(
        g,
        dir,
        k + 1,
    )[p] by {}
}

/// One swipe applied to line `k` of direction `dir`; whether it changed. A
/// grid whose line stays as it was is not written to.
pub(crate) fn slide_line_in_grid(grid: &mut FaceGrid, dir: usize, k: usize) -> (moved: bool)
    requires
        grid_cols(*old(grid)) == 4,
        grid_faces(*old(grid)).len() == 16,
        dir < 4,
        k < 4,
        forall|j: int|
            0 <= j < 4 ==> #[trigger] line_of(as_nats(grid_faces(*old(grid))), dir as int, k as int)[j]
                <= MAX_SAFE_FACE,
    ensures
        grid_cols(*final(grid)) == 4,
        grid_faces(*final(grid)).len() == 16,
        as_nats(grid_faces(*final(grid))) == with_line_slid(
            as_nats(grid_faces(*old(grid))),
            dir as int,
            k as int,
        ),
        moved == moves(line_of(as_nats(grid_faces(*old(grid))), dir as int, k as int)),
        !moved ==> *final(grid) == *old(grid),
{
    let ghost g = as_nats(grid_faces(*grid));
    let ghost l = line_of(g, dir as int, k as int);
    let line: [u32; 4] = read_line(grid, dir, k);
    proof {
        assert forall|j: int| 0 <= j < 4 implies line@[j] <= MAX_SAFE_FACE by {
            assert(as_nats(line@)[j] == l[j]);
        }
    }
    let (new_line, moved) = slide_face_line(line);
    if moved {
        write_line(grid, dir, k, new_line);
    }
    proof {
        if !moved {
            assert(slide_faces(l) =~= l);
        }
        assert forall|p: int| 0 <= p < 16 implies as_nats(grid_faces(*grid))[p] == with_line_slid(
            g,
            dir as int,
            k as int,
        )[p] by {
            if line_through(dir as int, p) == k {
                let at = place_in_line(dir as int, p);
                assert(square(dir as int, k as int, at) == p);
                assert(as_nats(new_line@)[at] == new_line@[at]);
                assert(l[at] == g[p]);
            }
        }
        assert(as_nats(grid_faces(*grid)) =~= with_line_slid(g, dir as int, k as int));
    }
    moved
}

/// One swipe in direction `dir` applied to every line of the grid; whether
/// that changed the grid. A grid that it leaves as it was is not written to.
pub(crate) fn slide_grid(grid: &mut FaceGrid, dir: usize) -> (changed: bool)
    requires
        grid_cols(*old(grid)) == 4,
        grid_faces(*old(grid)).len() == 16,
        dir < 4,
        forall|p: int| 0 <= p < 16 ==> #[trigger] grid_faces(*old(grid))[p] <= MAX_SAFE_FACE,
    ensures
        grid_cols(*final(grid)) == 4,
        grid_faces(*final(grid)).len() == 16,
        as_nats(grid_faces(*final(grid))) == swiped_faces(
            as_nats(grid_faces(*old(grid))),
            dir as int,
        ),
        changed == (swiped_faces(as_nats(grid_faces(*old(grid))), dir as int) != as_nats(
            grid_faces(*old(grid)),
        )),
        !changed ==> *final(grid) == *old(grid),
{
    let ghost start = as_nats(grid_faces(*grid));
    let mut changed: bool = false;
    let mut k: usize = 0;
    assert(as_nats(grid_faces(*grid)) =~= slid_up_to(start, dir as int, 0));
    while k < 4
        invariant
            k <= 4,
            dir < 4,
            start.len() == 16,
            forall|p: int| 0 <= p < 16 ==> #[trigger] start[p] <= MAX_SAFE_FACE,
            grid_cols(*grid) == 4,
            grid_faces(*grid).len() == 16,
            !changed ==> *grid == *old(grid),
            changed <==> exists|i: int|
                0 <= i < k && #[trigger] moves(line_of(start, dir as int, i)),
            as_nats(grid_faces(*grid)) == slid_up_to(start, dir as int, k as int),
        decreases 4 - k,
    {
        proof {
            lemma_slide_next_line(start, dir as int, k as int);
            assert forall|j: int| 0 <= j < 4 implies #[trigger] line_of(
                start,
                dir as int,
                k as int,
            )[j] <= MAX_SAFE_FACE by {
                assert(line_of(start, dir as int, k as int)[j] == start[square(
                    dir as int,
                    k as int,
                    j,
                )]);
            }
        }
        let moved: bool = slide_line_in_grid(grid, dir, k);
        if moved {
            changed = true;
        }
        k += 1;
    }
    proof {
        assert(slid_up_to(start, dir as int, 4) =~= swiped_faces(start, dir as int));
        if changed {
            let i = choose|i: int| 0 <= i < 4 && #[trigger] moves(line_of(start, dir as int, i));
            lemma_moved_line_changes_grid(start, dir as int, i);
        } else if swiped_faces(start, dir as int) != start {
            let i = lemma_changed_grid_moves_a_line(start, dir as int);
        }
    }
    changed
}

/// The largest face value on the grid.
pub(crate) fn grid_top(grid: &FaceGrid) -> (top: u32)
    requires
        grid_cols(*grid) == 4,
        grid_faces(*grid).len() == 16,
    ensures
        top == top_code(as_nats(grid_faces(*grid))),
{
    let ghost c = as_nats(grid_faces(*grid));
    let mut top: u32 = 0;
    let mut p: usize = 0;
    while p < 16
        invariant
            p <= 16,
            grid_cols(*grid) == 4,
            grid_faces(*grid).len() == 16,
            c == as_nats(grid_faces(*grid)),
            top == top_code(c.take(p as int)),
        decreases 16 - p,
    {
        let face: u32 = read_cell(grid, p / 4, p % 4);
        proof {
            let now = c.take(p + 1);
            assert(now.drop_last() =~= c.take(p as int));
            assert(now.last() == face);
        }
        if face >= top {
            top = face;
        }
        p += 1;
    }
    assert(c.take(16) =~= c);
    top
}

/// The empty cells on the edge that direction `dir` pushes away from.
pub(crate) fn open_cells(grid: &FaceGrid, dir: usize) -> (open: Vec<usize>)
    requires
        grid_cols(*grid) == 4,
        grid_faces(*grid).len() == 16,
        dir < 4,
    ensures
        forall|i: int| 0 <= i < open@.len() ==> open@[i] < 16,
        forall|p: int|
            open@.contains(p as usize) && 0 <= p < 16 <==> is_opening(
                as_nats(grid_faces(*grid)),
                dir as int,
                p,
            ),
        forall|i: int, j: int| 0 <= i < j < open@.len() ==> open@[i] < open@[j],
{
    let ghost c = as_nats(grid_faces(*grid));
    let mut open: Vec<usize> = Vec::new();
    let mut k: usize = 0;
    while k < 4
        invariant
            dir < 4,
            k <= 4,
            grid_cols(*grid) == 4,
            grid_faces(*grid).len() == 16,
            c == as_nats(grid_faces(*grid)),
            forall|i: int| 0 <= i < open@.len() ==> open@[i] < 16,
            forall|i: int|
                0 <= i < open@.len() ==> is_opening(c, dir as int, #[trigger] open@[i] as int)
                    && line_through(dir as int, open@[i] as int) < k,
            forall|p: int|
                is_opening(c, dir as int, p) && line_through(dir as int, p) < k ==> open@.contains(
                    p as usize,
                ),
            forall|i: int, j: int| 0 <= i < j < open@.len() ==> open@[i] < open@[j],
        decreases 4 - k,
    {
        let end = cell_of(dir, k, 3);
        let sq: usize = 4 * end.0 + end.1;
        let ghost before = open@;
        if read_cell(grid, end.0, end.1) == 0 {
            open.push(sq);
            proof {
                assert(open@[before.len() as int] == sq);
                assert forall|p: int|
                    is_opening(c, dir as int, p) && line_through(dir as int, p) < k
                        + 1 implies open@.contains(p as usize) by {
                    if line_through(dir as int, p) < k {
                        let i = choose|i: int| 0 <= i < before.len() && before[i] == p as usize;
                        assert(open@[i] == p as usize);
                    } else {
                        assert(p == sq);
                    }
                }
            }
        } else {
            assert forall|p: int|
                is_opening(c, dir as int, p) && line_through(dir as int, p) < k
                    + 1 implies open@.contains(p as usize) by {
                if line_through(dir as int, p) >= k {
                    assert(p == sq);
                }
            }
        }
        k += 1;
    }
    proof {
        assert forall|p: int| open@.contains(p as usize) && 0 <= p < 16 implies is_opening(
            c,
            dir as int,
            p,
        ) by {
            let i = choose|i: int| 0 <= i < open@.len() && open@[i] == p as usize;
            assert(is_opening(c, dir as int, open@[i] as int));
        }
    }
    open
}

} // verus!
