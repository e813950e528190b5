//! A grid of face values kept in an array of the `ndarray` crate. Nothing
//! here is proved: each contract states what the crate's source shows of the
//! call.

use ndarray::Array2;
use vstd::prelude::*;

verus! {

/// An `ndarray::Array2<u32>`. Nothing is known of it but what `grid_faces`
/// and `grid_cols` name.
#[verifier::external_body]
pub struct FaceGrid {
    cells: Array2<u32>,
}

/// What the array holds, row by row.
pub uninterp spec fn grid_faces(g: FaceGrid) -> Seq<u32>;

/// The length of a row of the array.
pub uninterp spec fn grid_cols(g: FaceGrid) -> nat;

/// The text that `ndarray` writes for an array of `rows` rows of length
/// `cols` with the given contents, made by `Array2::zeros` and written to
/// since, when it is formatted with `{:?}`: the items, then shape, strides
/// and layout, which the two lengths fix for such an array.
pub uninterp spec fn grid_debug_text(faces: Seq<u32>, rows: nat, cols: nat) -> Seq<char>;

/// `Array2::zeros` with the shape `(rows, cols)`: an array of that many
/// rows and columns, every item 0. The call panics when the lengths that
/// are not 0 multiply to more than `isize` holds; with neither length 0 and
/// the bound here, their product is the number of items and far below.
#[verifier::external_body]
pub(crate) fn zeros(rows: usize, cols: usize) -> (g: FaceGrid)
    requires
        0 < rows,
        0 < cols,
        rows * cols <= 0x10000,
    ensures
        grid_cols(g) == cols,
        grid_faces(g) == Seq::new((rows * cols) as nat, |i: int| 0u32),
{
    FaceGrid { cells: Array2::<u32>::zeros((rows, cols)) }
}

/// Indexing with `[[r, c]]`: the item of row `r` and column `c`. It panics
/// outside the array, so `r` and `c` lie inside.
#[verifier::external_body]
pub(crate) fn face_at(g: &FaceGrid, r: usize, c: usize) -> (face: u32)
    requires
        c < grid_cols(*g),
        r * grid_cols(*g) + c < grid_faces(*g).len(),
    ensures
        face == grid_faces(*g)[r * grid_cols(*g) + c],
{
    g.cells[[r, c]]
}

/// Assigning through `[[r, c]]`: the item of row `r` and column `c` becomes
/// `face`, and nothing else changes.
#[verifier::external_body]
pub(crate) fn set_face(g: &mut FaceGrid, r: usize, c: usize, face: u32)
    requires
        c < grid_cols(*old(g)),
        r * grid_cols(*old(g)) + c < grid_faces(*old(g)).len(),
    ensures
        grid_cols(*final(g)) == grid_cols(*old(g)),
        grid_faces(*final(g)) == grid_faces(*old(g)).update(r * grid_cols(*old(g)) + c, face),
{
    g.cells[[r, c]] = face;
}

/// The array formatted with `{:?}`. An array with an empty axis is left
/// out: its contents and row length do not tell its shape.
#[verifier::external_body]
pub(crate) fn grid_debug(g: &FaceGrid) -> (text: String)
    requires
        grid_cols(*g) > 0,
        grid_faces(*g).len() > 0,
    ensures
        text@ == grid_debug_text(
            grid_faces(*g),
            grid_faces(*g).len() / grid_cols(*g),
            grid_cols(*g),
        ),
{
    format!("{:?}", g.cells)
}

} // verus!
