//! The tables of the eleven-cell puzzle: its base pieces, its generators, and
//! the symmetries from which every face twist is made.

use vstd::prelude::*;
use crate::error::PuzzleError;
use crate::orbit::{signatures, tables};
use crate::perm::{
    identity_table, inverse_table, is_permutation, lemma_inverse_table, lemma_product_table,
    product_table, Permutation,
};
use crate::piece::Piece;
use crate::state::{lemma_fixed_grip_stays, lemma_twist_then_inverse, StateView};
use crate::twist::{conjugate_table, lemma_conjugate_fixes_grip, Twist, TwistView};

verus! {

/// The number of cells of the puzzle, which are its grips.
pub const DEGREE: usize = 11;

/// The signatures of the four kinds of piece, one piece of each kind.
pub open spec fn base_signatures() -> Seq<Seq<u8>> {
    seq![
        seq![1u8, 0, 0, 0, 0, 0, 0, 0, 0, 0, 0],
        seq![1u8, 1, 0, 0, 0, 0, 0, 0, 0, 0, 0],
        seq![1u8, 1, 1, 0, 0, 0, 0, 0, 0, 0, 0],
        seq![1u8, 1, 1, 1, 1, 1, 0, 0, 0, 0, 0],
    ]
}

/// The tables of the three symmetries that generate all the others.
pub open spec fn generator_tables() -> Seq<Seq<usize>> {
    seq![
        seq![10usize, 0, 1, 2, 3, 4, 5, 6, 7, 8, 9],
        seq![0usize, 2, 3, 4, 5, 1, 7, 8, 9, 10, 6],
        seq![0usize, 6, 8, 3, 4, 9, 1, 10, 2, 5, 7],
    ]
}

/// The table of the symmetry that brings cell `n` to the place of cell 0;
/// the identity where there is no cell `n`.
pub open spec fn cell_recenter_table(n: int) -> Seq<usize> {
    if n == 1 {
        seq![1usize, 0, 5, 3, 4, 2, 6, 8, 7, 10, 9]
    } else if n == 2 {
        seq![2usize, 3, 0, 1, 4, 5, 10, 7, 9, 8, 6]
    } else if n == 3 {
        seq![3usize, 1, 4, 0, 2, 5, 7, 6, 8, 10, 9]
    } else if n == 4 {
        seq![4usize, 1, 2, 5, 0, 3, 10, 8, 7, 9, 6]
    } else if n == 5 {
        seq![5usize, 4, 2, 3, 1, 0, 7, 6, 9, 8, 10]
    } else if n == 6 {
        seq![1usize, 6, 10, 4, 3, 7, 0, 8, 2, 5, 9]
    } else if n == 7 {
        seq![2usize, 8, 7, 6, 5, 4, 10, 0, 9, 3, 1]
    } else if n == 8 {
        seq![3usize, 5, 9, 8, 7, 1, 2, 6, 0, 10, 4]
    } else if n == 9 {
        seq![4usize, 2, 1, 10, 9, 8, 5, 3, 7, 0, 6]
    } else if n == 10 {
        seq![5usize, 9, 3, 2, 6, 10, 7, 1, 4, 8, 0]
    } else {
        identity_table(11)
    }
}

/// The table of the symmetry about cell 0 that brings face `n` to the place
/// of face 1; the identity where `n` is 0 or no face.
pub open spec fn face_recenter_table(n: int) -> Seq<usize> {
    if n == 2 {
        seq![0usize, 5, 1, 2, 3, 4, 10, 6, 7, 8, 9]
    } else if n == 3 {
        seq![0usize, 4, 5, 1, 2, 3, 9, 10, 6, 7, 8]
    } else if n == 4 {
        seq![0usize, 3, 4, 5, 1, 2, 8, 9, 10, 6, 7]
    } else if n == 5 {
        seq![0usize, 2, 3, 4, 5, 1, 7, 8, 9, 10, 6]
    } else if n == 6 {
        seq![0usize, 6, 8, 3, 4, 9, 1, 10, 2, 5, 7]
    } else if n == 7 {
        seq![0usize, 9, 6, 8, 3, 4, 7, 1, 10, 2, 5]
    } else if n == 8 {
        seq![0usize, 4, 9, 6, 8, 3, 5, 7, 1, 10, 2]
    } else if n == 9 {
        seq![0usize, 3, 4, 9, 6, 8, 2, 5, 7, 1, 10]
    } else if n == 10 {
        seq![0usize, 8, 3, 4, 9, 6, 10, 2, 5, 7, 1]
    } else {
        identity_table(11)
    }
}

/// The table of the turn of face 1 of cell 0, one way or the other.
pub open spec fn face_rot_table(ccw: bool) -> Seq<usize> {
    if ccw {
        seq![0usize, 1, 5, 10, 8, 6, 2, 4, 7, 3, 9]
    } else {
        seq![0usize, 1, 6, 9, 7, 2, 5, 8, 4, 10, 3]
    }
}

/// The twist of face `face` of cell `cell`, one way or the other, as plain
/// values: the turn of face 1 of cell 0, carried over to that cell and face.
pub open spec fn face_twist_view(cell: int, face: int, ccw: bool) -> TwistView {
    TwistView {
        grip: cell,
        rot: conjugate_table(
            cell_recenter_table(cell),
            face_recenter_table(face),
            face_rot_table(ccw),
        ),
    }
}

/// One piece of each kind, at home.
pub fn base_pieces() -> (r: Vec<Piece>)
    ensures
        signatures(r@) == base_signatures(),
        forall|i: int|
            0 <= i < r@.len() ==> (#[trigger] r@[i]).wf() && r@[i].att.deg == DEGREE && r@[i]@.att
                == identity_table(11),
{
    let pieces: Vec<Piece> = vec![
        Piece::new(vec![1u8, 0, 0, 0, 0, 0, 0, 0, 0, 0, 0]),
        Piece::new(vec![1u8, 1, 0, 0, 0, 0, 0, 0, 0, 0, 0]),
        Piece::new(vec![1u8, 1, 1, 0, 0, 0, 0, 0, 0, 0, 0]),
        Piece::new(vec![1u8, 1, 1, 1, 1, 1, 0, 0, 0, 0, 0]),
    ];
    proof {
        assert(signatures(pieces@) =~= base_signatures());
    }
    pieces
}

/// The three symmetries that generate all the others.
pub fn generators() -> (r: Vec<Permutation>)
    ensures
        tables(r@) == generator_tables(),
        forall|i: int| 0 <= i < r@.len() ==> (#[trigger] r@[i]).wf() && r@[i].deg == DEGREE,
{
    let gens: Vec<Permutation> = vec![
        Permutation::new(vec![10usize, 0, 1, 2, 3, 4, 5, 6, 7, 8, 9]),
        Permutation::new(vec![0usize, 2, 3, 4, 5, 1, 7, 8, 9, 10, 6]),
        Permutation::new(vec![0usize, 6, 8, 3, 4, 9, 1, 10, 2, 5, 7]),
    ];
    proof {
        assert(tables(gens@) =~= generator_tables());
    }
    gens
}

/// The symmetry that brings cell `n` to the place of cell 0.
pub fn cell_recenter(n: usize) -> (r: Permutation)
    ensures
        r.wf(),
        r.deg == DEGREE,
        r@ == cell_recenter_table(n as int),
        n < DEGREE ==> r@[n as int] == 0,
{
    match n {
        0 => Permutation::identity(11),
        1 => Permutation::new(vec![1usize, 0, 5, 3, 4, 2, 6, 8, 7, 10, 9]),
        2 => Permutation::new(vec![2usize, 3, 0, 1, 4, 5, 10, 7, 9, 8, 6]),
        3 => Permutation::new(vec![3usize, 1, 4, 0, 2, 5, 7, 6, 8, 10, 9]),
        4 => Permutation::new(vec![4usize, 1, 2, 5, 0, 3, 10, 8, 7, 9, 6]),
        5 => Permutation::new(vec![5usize, 4, 2, 3, 1, 0, 7, 6, 9, 8, 10]),
        6 => Permutation::new(vec![1usize, 6, 10, 4, 3, 7, 0, 8, 2, 5, 9]),
        7 => Permutation::new(vec![2usize, 8, 7, 6, 5, 4, 10, 0, 9, 3, 1]),
        8 => Permutation::new(vec![3usize, 5, 9, 8, 7, 1, 2, 6, 0, 10, 4]),
        9 => Permutation::new(vec![4usize, 2, 1, 10, 9, 8, 5, 3, 7, 0, 6]),
        10 => Permutation::new(vec![5usize, 9, 3, 2, 6, 10, 7, 1, 4, 8, 0]),
        _ => Permutation::identity(11),
    }
}

/// The symmetry about cell 0 that brings face `n` to the place of face 1.
pub fn face_recenter(n: usize) -> (r: Permutation)
    ensures
        r.wf(),
        r.deg == DEGREE,
        r@ == face_recenter_table(n as int),
        r@[0] == 0,
        1 <= n < DEGREE ==> r@[n as int] == 1,
{
    match n {
        1 => Permutation::identity(11),
        2 => Permutation::new(vec![0usize, 5, 1, 2, 3, 4, 10, 6, 7, 8, 9]),
        3 => Permutation::new(vec![0usize, 4, 5, 1, 2, 3, 9, 10, 6, 7, 8]),
        4 => Permutation::new(vec![0usize, 3, 4, 5, 1, 2, 8, 9, 10, 6, 7]),
        5 => Permutation::new(vec![0usize, 2, 3, 4, 5, 1, 7, 8, 9, 10, 6]),
        6 => Permutation::new(vec![0usize, 6, 8, 3, 4, 9, 1, 10, 2, 5, 7]),
        7 => Permutation::new(vec![0usize, 9, 6, 8, 3, 4, 7, 1, 10, 2, 5]),
        8 => Permutation::new(vec![0usize, 4, 9, 6, 8, 3, 5, 7, 1, 10, 2]),
        9 => Permutation::new(vec![0usize, 3, 4, 9, 6, 8, 2, 5, 7, 1, 10]),
        10 => Permutation::new(vec![0usize, 8, 3, 4, 9, 6, 10, 2, 5, 7, 1]),
        _ => Permutation::identity(11),
    }
}

/// The turn of face 1 of cell 0, counter-clockwise or clockwise.
pub fn face_rot(ccw: bool) -> (r: Permutation)
    ensures
        r.wf(),
        r.deg == DEGREE,
        r@ == face_rot_table(ccw),
        r@[0] == 0,
        r@[1] == 1,
{
    Permutation::new(
        if ccw {
            vec![0usize, 1, 5, 10, 8, 6, 2, 4, 7, 3, 9]
        } else {
            vec![0usize, 1, 6, 9, 7, 2, 5, 8, 4, 10, 3]
        },
    )
}

/// The twist of face `face` of cell `cell`: the turn of face 1 of cell 0,
/// carried over to that cell and face. It leaves its own cell in place. A
/// cell or face that the puzzle does not have is refused.
pub fn face_twist(cell: usize, face: usize, ccw: bool) -> (r: Result<Twist, PuzzleError>)
    ensures
        match r {
            Ok(t) => cell < DEGREE && face < DEGREE && t.wf() && t.rot.deg == DEGREE && t@
                == face_twist_view(cell as int, face as int, ccw) && t@.rot[cell as int] == cell,
            Err(e) => (cell >= DEGREE || face >= DEGREE) && e == PuzzleError::IndexOutOfRange,
        },
{
    if cell >= DEGREE || face >= DEGREE {
        return Err(PuzzleError::IndexOutOfRange);
    }
    let recenter = cell_recenter(cell);
    let to_face = face_recenter(face);
    let rot = face_rot(ccw);
    proof {
        lemma_conjugate_fixes_grip(recenter@, to_face@, rot@, cell as int);
    }
    Twist::recentered(cell, &recenter, &to_face, &rot)
}

/// Every table of the puzzle is a permutation of its eleven cells. The
/// table of a cell brings that cell to the place of cell 0; the table of a
/// face leaves cell 0 in place and brings that face to the place of face 1;
/// the turn leaves cell 0 and face 1 in place.
pub proof fn lemma_tables(cell: int, face: int, ccw: bool)
    ensures
        is_permutation(cell_recenter_table(cell)),
        cell_recenter_table(cell).len() == 11,
        0 <= cell < 11 ==> cell_recenter_table(cell)[cell] == 0,
        is_permutation(face_recenter_table(face)),
        face_recenter_table(face).len() == 11,
        face_recenter_table(face)[0] == 0,
        1 <= face < 11 ==> face_recenter_table(face)[face] == 1,
        is_permutation(face_rot_table(ccw)),
        face_rot_table(ccw).len() == 11,
        face_rot_table(ccw)[0] == 0,
        face_rot_table(ccw)[1] == 1,
{
}

/// Every face twist of a cell of the puzzle is a valid twist of eleven grips
/// that leaves its own cell in place.
pub proof fn lemma_face_twist(cell: int, face: int, ccw: bool)
    requires
        0 <= cell < 11,
    ensures
        face_twist_view(cell, face, ccw).wf(),
        face_twist_view(cell, face, ccw).rot.len() == 11,
        face_twist_view(cell, face, ccw).rot[cell] == cell,
{
    let recenter = cell_recenter_table(cell);
    let to_face = face_recenter_table(face);
    let rot = face_rot_table(ccw);
    lemma_tables(cell, face, ccw);
    lemma_inverse_table(recenter);
    lemma_inverse_table(to_face);
    let there = product_table(recenter, to_face);
    lemma_product_table(recenter, to_face);
    let turned = product_table(there, rot);
    lemma_product_table(there, rot);
    let nearly = product_table(turned, inverse_table(to_face));
    lemma_product_table(turned, inverse_table(to_face));
    lemma_product_table(nearly, inverse_table(recenter));
    lemma_conjugate_fixes_grip(recenter, to_face, rot, cell);
}

/// A face twist and then its inverse give back any valid state of the
/// puzzle.
pub proof fn lemma_face_twist_then_inverse(s: StateView, cell: int, face: int, ccw: bool)
    requires
        s.wf(),
        s.degree == 11,
        0 <= cell < 11,
    ensures
        s.twist(face_twist_view(cell, face, ccw)).twist(face_twist_view(cell, face, ccw).inverse())
            == s,
{
    let t = face_twist_view(cell, face, ccw);
    lemma_face_twist(cell, face, ccw);
    lemma_fixed_grip_stays(s.pieces, t);
    lemma_twist_then_inverse(s, t);
}

} // verus!
