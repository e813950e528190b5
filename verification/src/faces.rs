//! The rules on face values: a line of four faces, slid by adding, and
//! how that agrees with the rules on codes.

use vstd::prelude::*;
use vstd::arithmetic::power2::{lemma2_to64, lemma_pow2_pos, lemma_pow2_unfold};
use crate::bitboard::INIT_HIGHEST;
use crate::grid::{is_opening, line_of, line_through, place_in_line, square, swiped};
use crate::line::{gives_way, joined, slide_cells, TOP_CODE};
use crate::tile::{
    code_of, face_of, is_face_value, lemma_face_of_increases, lemma_face_of_injective,
};

verus! {

/// The largest face value that can be doubled within a `u32`.
pub const MAX_SAFE_FACE: u32 = 0x7FFF_FFFF;

/// The faces as numbers of the model.
pub open spec fn as_nats(faces: Seq<u32>) -> Seq<nat> {
    Seq::new(faces.len(), |i: int| faces[i] as nat)
}

/// The face values of some codes.
pub open spec fn faces_of(codes: Seq<nat>) -> Seq<nat> {
    Seq::new(codes.len(), |i: int| face_of(codes[i]))
}

/// The codes of some face values.
pub open spec fn codes_from(faces: Seq<nat>) -> Seq<nat> {
    Seq::new(faces.len(), |i: int| code_of(faces[i]))
}

/// The cell showing `a` takes what the next cell shows, `b`: it is empty,
/// the two make 3 together, or they are equal and at least 3.
pub open spec fn face_gives_way(a: nat, b: nat) -> bool {
    a == 0 || a + b == 3 || (a == b && a >= 3)
}

/// One swipe applied to a line of face values. The first cell that gives
/// way takes its neighbour in, by adding; every cell behind moves up by one.
pub open spec fn slide_faces(c: Seq<nat>) -> Seq<nat>
    recommends
        c.len() == 4,
{
    if face_gives_way(c[0], c[1]) {
        seq![c[0] + c[1], c[2], c[3], 0]
    } else if face_gives_way(c[1], c[2]) {
        seq![c[0], c[1] + c[2], c[3], 0]
    } else if face_gives_way(c[2], c[3]) {
        seq![c[0], c[1], c[2] + c[3], 0]
    } else {
        c
    }
}

/// The swipe changes the line.
pub open spec fn moves(c: Seq<nat>) -> bool
    recommends
        c.len() == 4,
{
    slide_faces(c) != c
}

/// The line that a direction number names: 0 left, 1 up, 2 right, anything
/// else down.
pub open spec fn way(dir: u32) -> int {
    if dir < 3 {
        dir as int
    } else {
        3
    }
}

/// The grid of face values after a swipe in direction `dir`.
pub open spec fn swiped_faces(g: Seq<nat>, dir: int) -> Seq<nat> {
    Seq::new(
        16,
        |p: int| slide_faces(line_of(g, dir, line_through(dir, p)))[place_in_line(dir, p)],
    )
}

/// Some cell on the edge that direction `dir` pushes away from is empty.
pub open spec fn has_opening(g: Seq<nat>, dir: int) -> bool {
    exists|p: int| is_opening(g, dir, p)
}

/// One swipe applied to a line of face values, and whether it changed the
/// line.
pub fn slide_face_line(line: [u32; 4]) -> (out: ([u32; 4], bool))
    requires
        forall|j: int| 0 <= j < 4 ==> line@[j] <= MAX_SAFE_FACE,
    ensures
        as_nats(out.0@) == slide_faces(as_nats(line@)),
        out.1 == moves(as_nats(line@)),
{
    let a: u32 = line[0];
    let b: u32 = line[1];
    let c: u32 = line[2];
    let d: u32 = line[3];
    let slid: [u32; 4] = if a == 0 || a + b == 3 || (a == b && a >= 3) {
        [a + b, c, d, 0]
    } else if b == 0 || b + c == 3 || (b == c && b >= 3) {
        [a, b + c, d, 0]
    } else if c == 0 || c + d == 3 || (c == d && c >= 3) {
        [a, b, c + d, 0]
    } else {
        line
    };
    let changed: bool = slid[0] != a || slid[1] != b || slid[2] != c || slid[3] != d;
    proof {
        assert(as_nats(slid@) =~= slide_faces(as_nats(line@)));
        if changed {
            assert(as_nats(slid@)[0] != as_nats(line@)[0] || as_nats(slid@)[1] != as_nats(
                line@,
            )[1] || as_nats(slid@)[2] != as_nats(line@)[2] || as_nats(slid@)[3] != as_nats(
                line@,
            )[3]);
        } else {
            assert(as_nats(slid@) =~= as_nats(line@));
        }
    }
    (slid, changed)
}

/// The largest face value on a line.
pub fn line_top(line: [u32; 4]) -> (top: u32)
    ensures
        forall|j: int| 0 <= j < 4 ==> line@[j] <= top,
        exists|j: int| 0 <= j < 4 && line@[j] == top,
{
    let mut top: u32 = line[0];
    if line[1] > top {
        top = line[1];
    }
    if line[2] > top {
        top = line[2];
    }
    if line[3] > top {
        top = line[3];
    }
    assert(line@[0] == top || line@[1] == top || line@[2] == top || line@[3] == top);
    top
}

/// How the faces of two codes compare.
pub proof fn lemma_faces_compare(a: nat, b: nat)
    ensures
        face_of(a) == 0 <==> a == 0,
        face_of(a) >= 3 <==> a >= 3,
        face_of(a) == face_of(b) <==> a == b,
        face_of(a) + face_of(b) == 3 <==> (a + b == 3 && a <= 3 && b <= 3),
        a >= 3 ==> face_of(a + 1) == 2 * face_of(a),
{
    lemma2_to64();
    if a >= 3 {
        lemma_pow2_pos((a - 3) as nat);
        lemma_pow2_unfold((a - 2) as nat);
    }
    if b >= 3 {
        lemma_pow2_pos((b - 3) as nat);
    }
    if a > 3 {
        lemma_face_of_increases(3, a);
    }
    if b > 3 {
        lemma_face_of_increases(3, b);
    }
    if face_of(a) == face_of(b) {
        lemma_face_of_injective(a, b);
    }
}

/// The plain rules and the rules on codes agree: sliding the faces of a
/// line gives the faces of the slid line, as long as no tile has the top
/// code, which has no double.
pub proof fn lemma_slide_faces_of_codes(c: Seq<nat>)
    requires
        c.len() == 4,
        forall|j: int| 0 <= j < 4 ==> c[j] < TOP_CODE,
    ensures
        slide_faces(faces_of(c)) =~= faces_of(slide_cells(c)),
{
    let f = faces_of(c);
    let r = slide_cells(c);
    lemma_faces_compare(c[0], c[1]);
    lemma_faces_compare(c[1], c[2]);
    lemma_faces_compare(c[2], c[3]);
    lemma_faces_compare(c[3], c[0]);
    lemma2_to64();
    assert(face_of(0) == 0 && face_of(1) == 1 && face_of(2) == 2 && face_of(3) == 3);
    assert(f[0] == face_of(c[0]) && f[1] == face_of(c[1]) && f[2] == face_of(c[2]) && f[3]
        == face_of(c[3]));
    if gives_way(c[0], c[1]) {
        assert(r =~= seq![joined(c[0], c[1]), c[2], c[3], 0]);
        assert(face_of(joined(c[0], c[1])) == f[0] + f[1]);
    } else if gives_way(c[1], c[2]) {
        assert(r =~= seq![c[0], joined(c[1], c[2]), c[3], 0]);
        assert(face_of(joined(c[1], c[2])) == f[1] + f[2]);
    } else if gives_way(c[2], c[3]) {
        assert(r =~= seq![c[0], c[1], joined(c[2], c[3]), 0]);
        assert(face_of(joined(c[2], c[3])) == f[2] + f[3]);
    }
    assert(faces_of(r)[0] == face_of(r[0]) && faces_of(r)[1] == face_of(r[1]) && faces_of(r)[2]
        == face_of(r[2]) && faces_of(r)[3] == face_of(r[3]));
}

/// The plain rules and the rules on codes agree on every board without a
/// tile of the top code.
pub proof fn lemma_swiped_faces_of_codes(c: Seq<nat>, dir: int)
    requires
        c.len() == 16,
        0 <= dir < 4,
        forall|p: int| 0 <= p < 16 ==> c[p] < TOP_CODE,
    ensures
        swiped_faces(faces_of(c), dir) =~= faces_of(swiped(c, dir)),
{
    assert forall|p: int| 0 <= p < 16 implies swiped_faces(faces_of(c), dir)[p] == faces_of(
        swiped(c, dir),
    )[p] by {
        let k = line_through(dir, p);
        let l = line_of(c, dir, k);
        assert(line_of(faces_of(c), dir, k) =~= faces_of(l));
        lemma_slide_faces_of_codes(l);
    }
}

/// A line that the swipe changes differs from the slid line in some cell.
pub proof fn lemma_moved_cell(l: Seq<nat>) -> (j: int)
    requires
        l.len() == 4,
        moves(l),
    ensures
        0 <= j < 4,
        slide_faces(l)[j] != l[j],
{
    let r = slide_faces(l);
    assert(r.len() == 4);
    if r[0] == l[0] && r[1] == l[1] && r[2] == l[2] && r[3] == l[3] {
        assert(r =~= l);
    }
    if r[0] != l[0] {
        0
    } else if r[1] != l[1] {
        1
    } else if r[2] != l[2] {
        2
    } else {
        3
    }
}

/// A swipe that changes the grid changes one of its lines.
pub proof fn lemma_changed_grid_moves_a_line(g: Seq<nat>, dir: int) -> (k: int)
    requires
        g.len() == 16,
        0 <= dir < 4,
        swiped_faces(g, dir) != g,
    ensures
        0 <= k < 4,
        moves(line_of(g, dir, k)),
{
    let slid = swiped_faces(g, dir);
    if forall|q: int| 0 <= q < 16 ==> slid[q] == g[q] {
        assert(slid =~= g);
    }
    let q = choose|q: int| 0 <= q < 16 && slid[q] != g[q];
    let k = line_through(dir, q);
    let at = place_in_line(dir, q);
    let l = line_of(g, dir, k);
    assert(square(dir, k, at) == q);
    assert(l[at] == g[q]);
    assert(slid[q] == slide_faces(l)[at]);
    k
}

/// A swipe that changes a line of the grid changes the grid.
pub proof fn lemma_moved_line_changes_grid(g: Seq<nat>, dir: int, k: int)
    requires
        g.len() == 16,
        0 <= dir < 4,
        0 <= k < 4,
        moves(line_of(g, dir, k)),
    ensures
        swiped_faces(g, dir) != g,
{
    let l = line_of(g, dir, k);
    let j = lemma_moved_cell(l);
    let p = square(dir, k, j);
    assert(line_through(dir, p) == k);
    assert(place_in_line(dir, p) == j);
    assert(swiped_faces(g, dir)[p] == slide_faces(l)[j]);
    assert(l[j] == g[p]);
}

/// A swipe that changes the grid leaves an empty cell on the edge that it
/// pushes away from.
pub proof fn lemma_changed_opens(g: Seq<nat>, dir: int)
    requires
        g.len() == 16,
        0 <= dir < 4,
        swiped_faces(g, dir) != g,
    ensures
        has_opening(swiped_faces(g, dir), dir),
{
    let k = lemma_changed_grid_moves_a_line(g, dir);
    let l = line_of(g, dir, k);
    let p = square(dir, k, 3);
    assert(line_through(dir, p) == k);
    assert(place_in_line(dir, p) == 3);
    assert(l.len() == 4);
    if !face_gives_way(l[0], l[1]) && !face_gives_way(l[1], l[2]) && !face_gives_way(l[2], l[3]) {
        assert(slide_faces(l) =~= l);
    }
    assert(slide_faces(l)[3] == 0);
    assert(is_opening(swiped_faces(g, dir), dir, p));
}

/// A swipe of a grid of tiles leaves a grid of tiles.
pub proof fn lemma_swiped_faces_are_faces(g: Seq<nat>, dir: int)
    requires
        g.len() == 16,
        0 <= dir < 4,
        forall|p: int| 0 <= p < 16 ==> is_face_value(#[trigger] g[p]),
    ensures
        forall|p: int| 0 <= p < 16 ==> is_face_value(#[trigger] swiped_faces(g, dir)[p]),
{
    assert forall|p: int| 0 <= p < 16 implies is_face_value(#[trigger] swiped_faces(g, dir)[p]) by {
        let k = line_through(dir, p);
        let l = line_of(g, dir, k);
        assert forall|j: int| 0 <= j < 4 implies is_face_value(#[trigger] l[j]) by {
            assert(l[j] == g[square(dir, k, j)]);
        }
        lemma_slide_faces_are_faces(l);
    }
}

/// A swipe of a line of tiles leaves a line of tiles.
pub proof fn lemma_slide_faces_are_faces(l: Seq<nat>)
    requires
        l.len() == 4,
        forall|j: int| 0 <= j < 4 ==> is_face_value(#[trigger] l[j]),
    ensures
        forall|j: int| 0 <= j < 4 ==> is_face_value(#[trigger] slide_faces(l)[j]),
{
    lemma2_to64();
    assert(face_of(0) == 0 && face_of(3) == 3);
    assert(is_face_value(l[0]) && is_face_value(l[1]) && is_face_value(l[2]) && is_face_value(
        l[3],
    ));
    if l[0] >= 3 {
        lemma_double_is_face(l[0]);
    }
    if l[1] >= 3 {
        lemma_double_is_face(l[1]);
    }
    if l[2] >= 3 {
        lemma_double_is_face(l[2]);
    }
}

/// The double of a tile from 3 up is a tile.
pub proof fn lemma_double_is_face(v: nat)
    requires
        is_face_value(v),
        v >= 3,
    ensures
        is_face_value(2 * v),
{
    let c = code_of(v);
    lemma_faces_compare(c, c);
    assert(face_of(c + 1) == 2 * v);
}

/// An eighth, a sixteenth and a thirty-second of a tile from 96 up are tiles.
pub proof fn lemma_bonus_faces(h: nat)
    requires
        is_face_value(h),
        h >= INIT_HIGHEST,
    ensures
        is_face_value(h / 8) && 3 <= h / 8 <= h,
        is_face_value(h / 8 / 2) && 3 <= h / 8 / 2 <= h,
        is_face_value(h / 8 / 4) && 3 <= h / 8 / 4 <= h,
{
    let c = code_of(h);
    lemma2_to64();
    if c < 8 {
        lemma_face_of_increases(c, 8);
    }
    let e = (c - 8) as nat;
    lemma_pow2_pos(e);
    lemma_pow2_unfold(e + 1);
    lemma_pow2_unfold(e + 2);
    lemma_pow2_unfold(e + 3);
    lemma_pow2_unfold(e + 4);
    lemma_pow2_unfold(e + 5);
    assert(face_of((c - 3) as nat) == h / 8);
    assert(face_of((c - 4) as nat) == h / 8 / 2);
    assert(face_of((c - 5) as nat) == h / 8 / 4);
}

} // verus!
