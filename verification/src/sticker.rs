//! What a piece shows on the faces of the cells it touches, for drawing.

use vstd::prelude::*;
use crate::error::PuzzleError;
use crate::perm::inverse_table;
use crate::piece::{Piece, PieceView};
use crate::setup11c::{
    cell_recenter, cell_recenter_table, face_recenter, face_recenter_table, DEGREE,
};

verus! {

/// The part of a face that a piece covers, once the piece has been brought
/// to cell 0 and face 1. The numbers are corners of the face, counted 0, 1, 2
/// in the order in which the face lists them.
#[derive(Clone, Copy, Debug, PartialEq, Eq, Structural)]
pub enum Substicker {
    /// The whole face.
    Ridge,
    /// A strip along the side from the second corner named to the third; the
    /// first and the fourth are the corners that the strip leans towards at
    /// either end.
    Edge(usize, usize, usize, usize),
    /// A patch at the second corner named, between the first and the third.
    Vertex(usize, usize, usize),
    /// Nothing of the face.
    Blank,
}

/// What a piece shows on one face of one cell.
#[derive(Clone, Copy, Debug, PartialEq, Eq, Structural)]
pub struct Sticker {
    /// The cell whose place the cell had when the piece lay at home.
    pub home: usize,
    /// The cell that lies across the face.
    pub neighbour: usize,
    /// The cell whose place that neighbour had when the piece lay at home.
    pub neighbour_home: usize,
    /// The part of the face that the piece covers.
    pub shape: Substicker,
}

/// The shape that goes with a signature brought to cell 0 and face 1.
pub open spec fn substicker_of(sig: Seq<u8>) -> Substicker {
    if sig == seq![1u8, 1, 0, 0, 0, 0, 0, 0, 0, 0, 0] {
        Substicker::Ridge
    } else if sig == seq![1u8, 1, 1, 0, 0, 0, 0, 0, 0, 0, 0] {
        Substicker::Edge(1, 2, 0, 1)
    } else if sig == seq![1u8, 1, 0, 0, 0, 1, 0, 0, 0, 0, 0] {
        Substicker::Edge(2, 0, 1, 2)
    } else if sig == seq![1u8, 1, 0, 0, 0, 0, 1, 0, 0, 0, 0] {
        Substicker::Edge(0, 1, 2, 0)
    } else if sig == seq![1u8, 1, 1, 1, 1, 1, 0, 0, 0, 0, 0] {
        Substicker::Vertex(2, 0, 1)
    } else if sig == seq![1u8, 1, 0, 0, 0, 1, 1, 0, 1, 0, 1] {
        Substicker::Vertex(0, 1, 2)
    } else if sig == seq![1u8, 1, 1, 0, 0, 0, 1, 1, 0, 1, 0] {
        Substicker::Vertex(1, 2, 0)
    } else {
        Substicker::Blank
    }
}

/// What the piece shows on face `face` of cell `cell`: nothing unless the
/// piece, brought from that cell to cell 0, touches the face.
pub open spec fn sticker_of(p: PieceView, cell: int, face: int) -> Option<Sticker> {
    let centered = p.rotate(cell_recenter_table(cell));
    if centered.touches(face) {
        let neighbour = inverse_table(cell_recenter_table(cell))[face];
        Some(
            Sticker {
                home: inverse_table(p.att)[cell],
                neighbour,
                neighbour_home: inverse_table(p.att)[neighbour as int],
                shape: substicker_of(centered.rotate(face_recenter_table(face)).sig),
            },
        )
    } else {
        None
    }
}

/// Whether the two lists hold the same markers.
fn same_markers(a: &Vec<u8>, b: &Vec<u8>) -> (r: bool)
    ensures
        r == (a@ == b@),
{
    if a.len() != b.len() {
        return false;
    }
    let mut i: usize = 0;
    while i < a.len()
        invariant
            i <= a@.len(),
            a@.len() == b@.len(),
            forall|j: int| 0 <= j < i ==> a@[j] == b@[j],
        decreases a@.len() - i,
    {
        if a[i] != b[i] {
            return false;
        }
        i = i + 1;
    }
    assert(a@ =~= b@);
    true
}

/// The part of face 1 of cell 0 that the piece covers, for a piece that has
/// been brought there.
pub fn substicker(face_piece: &Piece) -> (r: Substicker)
    ensures
        r == substicker_of(face_piece@.sig),
{
    let sig = &face_piece.sig;
    if same_markers(sig, &vec![1u8, 1, 0, 0, 0, 0, 0, 0, 0, 0, 0]) {
        Substicker::Ridge
    } else if same_markers(sig, &vec![1u8, 1, 1, 0, 0, 0, 0, 0, 0, 0, 0]) {
        Substicker::Edge(1, 2, 0, 1)
    } else if same_markers(sig, &vec![1u8, 1, 0, 0, 0, 1, 0, 0, 0, 0, 0]) {
        Substicker::Edge(2, 0, 1, 2)
    } else if same_markers(sig, &vec![1u8, 1, 0, 0, 0, 0, 1, 0, 0, 0, 0]) {
        Substicker::Edge(0, 1, 2, 0)
    } else if same_markers(sig, &vec![1u8, 1, 1, 1, 1, 1, 0, 0, 0, 0, 0]) {
        Substicker::Vertex(2, 0, 1)
    } else if same_markers(sig, &vec![1u8, 1, 0, 0, 0, 1, 1, 0, 1, 0, 1]) {
        Substicker::Vertex(0, 1, 2)
    } else if same_markers(sig, &vec![1u8, 1, 1, 0, 0, 0, 1, 1, 0, 1, 0]) {
        Substicker::Vertex(1, 2, 0)
    } else {
        Substicker::Blank
    }
}

/// What the piece shows on face `face` of cell `cell`, if anything. A piece
/// of another degree than the puzzle's is refused first, then a cell or a
/// face that the puzzle does not have.
pub fn sticker(piece: &Piece, cell: usize, face: usize) -> (r: Result<Option<Sticker>, PuzzleError>)
    requires
        piece.wf(),
    ensures
        match r {
            Ok(shown) => piece.att.deg == DEGREE && cell < DEGREE && face < DEGREE && shown
                == sticker_of(piece@, cell as int, face as int),
            Err(e) => if piece.att.deg != DEGREE {
                e == PuzzleError::DegreeMismatch
            } else {
                (cell >= DEGREE || face >= DEGREE) && e == PuzzleError::IndexOutOfRange
            },
        },
{
    if piece.degree() != DEGREE {
        return Err(PuzzleError::DegreeMismatch);
    }
    if cell >= DEGREE || face >= DEGREE {
        return Err(PuzzleError::IndexOutOfRange);
    }
    let recenter = cell_recenter(cell);
    let centered = piece.rotate(&recenter)?;
    if centered.grip_state(face)? != 1 {
        return Ok(None);
    }
    let on_face = centered.rotate(&face_recenter(face))?;
    let neighbour: usize = recenter.inverse().permute(face)?;
    let back = piece.att.inverse();
    let home: usize = back.permute(cell)?;
    let neighbour_home: usize = back.permute(neighbour)?;
    Ok(Some(Sticker { home, neighbour, neighbour_home, shape: substicker(&on_face) }))
}

} // verus!
