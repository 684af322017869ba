//! Twists: a grip and the rotation applied to the pieces that touch it, and
//! the one recipe by which a twist is made for any cell and face.

use vstd::prelude::*;
use crate::error::PuzzleError;
use crate::perm::{
    inverse_table, is_permutation, lemma_inverse_table, product_table, Permutation,
};

verus! {

/// A move: `rot` is applied to every piece that touches `grip`.
#[derive(Debug, PartialEq, Eq)]
pub struct Twist {
    pub grip: usize,
    pub rot: Permutation,
}

/// What a twist is, as plain values.
pub struct TwistView {
    pub grip: int,
    pub rot: Seq<usize>,
}

impl TwistView {
    /// The rotation is a permutation and the grip is one of its grips.
    pub open spec fn wf(self) -> bool {
        &&& is_permutation(self.rot)
        &&& 0 <= self.grip < self.rot.len()
    }

    /// The twist about the same grip that turns the other way.
    pub open spec fn inverse(self) -> TwistView {
        TwistView { grip: self.grip, rot: inverse_table(self.rot) }
    }
}

/// The rotation `rot` of the home frame, as it acts in the frame that
/// `recenter` and then `face_recenter` bring home: move there, turn, move
/// back.
pub open spec fn conjugate_table(
    recenter: Seq<usize>,
    face_recenter: Seq<usize>,
    rot: Seq<usize>,
) -> Seq<usize> {
    product_table(
        product_table(
            product_table(product_table(recenter, face_recenter), rot),
            inverse_table(face_recenter),
        ),
        inverse_table(recenter),
    )
}

impl View for Twist {
    type V = TwistView;

    open spec fn view(&self) -> TwistView {
        TwistView { grip: self.grip as int, rot: self.rot@ }
    }
}

impl Clone for Twist {
    fn clone(&self) -> (r: Self)
        ensures
            r@ == self@,
            r.rot.deg == self.rot.deg,
    {
        Twist { grip: self.grip, rot: self.rot.clone() }
    }
}

impl Twist {
    /// The rotation is a valid permutation and the grip is one of its grips.
    pub open spec fn wf(&self) -> bool {
        &&& self.rot.wf()
        &&& self.grip < self.rot.deg
    }

    /// Whether the rotation is a valid permutation and has the grip, found
    /// out by looking at it.
    pub fn is_valid(&self) -> (r: bool)
        ensures
            r == self.wf(),
    {
        self.grip < self.rot.deg && self.rot.is_valid()
    }

    /// The twist about `grip` that turns as `rot` does at home, for the frame
    /// that `recenter` and then `face_recenter` bring home. Permutations of
    /// different degrees are refused first, then a grip that they do not
    /// have.
    pub fn recentered(
        grip: usize,
        recenter: &Permutation,
        face_recenter: &Permutation,
        rot: &Permutation,
    ) -> (r: Result<Twist, PuzzleError>)
        requires
            recenter.wf(),
            face_recenter.wf(),
            rot.wf(),
        ensures
            match r {
                Ok(t) => recenter.deg == face_recenter.deg && recenter.deg == rot.deg && grip
                    < rot.deg && t.wf() && t.rot.deg == rot.deg && t@ == (TwistView {
                    grip: grip as int,
                    rot: conjugate_table(recenter@, face_recenter@, rot@),
                }),
                Err(e) => if recenter.deg != face_recenter.deg || recenter.deg != rot.deg {
                    e == PuzzleError::DegreeMismatch
                } else {
                    grip >= rot.deg && e == PuzzleError::IndexOutOfRange
                },
            },
    {
        let there = recenter.product(face_recenter)?;
        let turned = there.product(rot)?;
        let face_back = face_recenter.inverse();
        let nearly = turned.product(&face_back)?;
        let back = recenter.inverse();
        let whole = nearly.product(&back)?;
        if grip >= whole.deg {
            return Err(PuzzleError::IndexOutOfRange);
        }
        Ok(Twist { grip, rot: whole })
    }

    /// The twist that takes this one back.
    pub fn inverse(&self) -> (r: Twist)
        requires
            self.rot.wf(),
        ensures
            r@ == self@.inverse(),
            r.rot.wf(),
            r.rot.deg == self.rot.deg,
    {
        Twist { grip: self.grip, rot: self.rot.inverse() }
    }
}

/// Where `recenter` brings `grip` to a point that `face_recenter` and `rot`
/// leave in place, the conjugate leaves `grip` in place.
pub proof fn lemma_conjugate_fixes_grip(
    recenter: Seq<usize>,
    face_recenter: Seq<usize>,
    rot: Seq<usize>,
    grip: int,
)
    requires
        is_permutation(recenter),
        is_permutation(face_recenter),
        is_permutation(rot),
        recenter.len() == face_recenter.len(),
        recenter.len() == rot.len(),
        0 <= grip < recenter.len(),
        face_recenter[recenter[grip] as int] == recenter[grip],
        rot[recenter[grip] as int] == recenter[grip],
    ensures
        conjugate_table(recenter, face_recenter, rot)[grip] == grip,
{
    lemma_inverse_table(recenter);
    lemma_inverse_table(face_recenter);
    let home = recenter[grip] as int;
    assert(inverse_table(face_recenter)[face_recenter[home] as int] == home);
    assert(inverse_table(recenter)[recenter[grip] as int] == grip);
}

} // verus!
