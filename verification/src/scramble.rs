//! Scrambling: a run of face twists, either given or drawn at random.

use vstd::prelude::*;
use crate::error::PuzzleError;
use crate::random::{random_chance, random_index, thread_rng};
use crate::setup11c::{face_twist, face_twist_view, DEGREE};
use crate::state::{PuzzleState, StateView};

verus! {

/// One choice of a scramble: a cell, one of its faces, and which way to turn.
#[derive(Clone, Copy, Debug, PartialEq, Eq, Structural)]
pub struct Draw {
    pub cell: usize,
    pub face: usize,
    pub ccw: bool,
}

impl Draw {
    /// The puzzle has the cell and the face.
    pub open spec fn in_range(self) -> bool {
        self.cell < DEGREE && self.face < DEGREE
    }
}

/// Every draw names a cell and a face that the puzzle has.
pub open spec fn draws_in_range(draws: Seq<Draw>) -> bool {
    forall|i: int| 0 <= i < draws.len() ==> (#[trigger] draws[i]).in_range()
}

/// Every draw names a cell that the puzzle has and a face other than 0 that
/// it has.
pub open spec fn draws_on_faces(draws: Seq<Draw>) -> bool {
    forall|i: int| 0 <= i < draws.len() ==> (#[trigger] draws[i]).in_range() && draws[i].face >= 1
}

/// The state after the face twists of the draws, applied in their order.
pub open spec fn scrambled(s: StateView, draws: Seq<Draw>) -> StateView
    decreases draws.len(),
{
    if draws.len() == 0 {
        s
    } else {
        let d = draws.last();
        scrambled(s, draws.drop_last()).twist(face_twist_view(d.cell as int, d.face as int, d.ccw))
    }
}

impl PuzzleState {
    /// Applies the face twist of each draw in order, without recording any.
    /// All draws are looked at before the first twist: with a puzzle of
    /// another degree than the twists', or a draw out of range, nothing is
    /// applied. No draws, no change.
    pub fn scramble_with(&mut self, draws: &Vec<Draw>) -> (r: Result<(), PuzzleError>)
        requires
            old(self).wf(),
        ensures
            match r {
                Ok(_) => (draws@.len() == 0 || old(self).degree == DEGREE) && draws_in_range(
                    draws@,
                ) && final(self).wf() && final(self)@ == scrambled(old(self)@, draws@)
                    && final(self)@.history == old(self)@.history,
                Err(e) => *final(self) == *old(self) && draws@.len() > 0 && if old(self).degree
                    != DEGREE {
                    e == PuzzleError::DegreeMismatch
                } else {
                    !draws_in_range(draws@) && e == PuzzleError::IndexOutOfRange
                },
            },
            draws@.len() == 0 ==> *final(self) == *old(self),
    {
        if draws.len() == 0 {
            assert(self@ == scrambled(old(self)@, draws@));
            return Ok(());
        }
        if self.degree != DEGREE {
            return Err(PuzzleError::DegreeMismatch);
        }
        let mut k: usize = 0;
        while k < draws.len()
            invariant
                k <= draws@.len(),
                *self == *old(self),
                self.degree == DEGREE,
                draws_in_range(draws@.take(k as int)),
            decreases draws@.len() - k,
        {
            if draws[k].cell >= DEGREE || draws[k].face >= DEGREE {
                assert(!draws@[k as int].in_range());
                return Err(PuzzleError::IndexOutOfRange);
            }
            assert(draws@.take(k + 1) =~= draws@.take(k as int).push(draws@[k as int]));
            k = k + 1;
        }
        assert(draws@.take(k as int) =~= draws@);
        let mut i: usize = 0;
        while i < draws.len()
            invariant
                i <= draws@.len(),
                draws_in_range(draws@),
                self.wf(),
                self.degree == DEGREE,
                self@ == scrambled(old(self)@, draws@.take(i as int)),
                self@.history == old(self)@.history,
            decreases draws@.len() - i,
        {
            self.apply_draw(draws[i]);
            assert(draws@.take(i + 1).drop_last() =~= draws@.take(i as int));
            i = i + 1;
        }
        assert(draws@.take(i as int) =~= draws@);
        Ok(())
    }

    /// Applies `n` face twists drawn at random, without recording any: each
    /// has a cell drawn from all cells, a face drawn from all faces but 0,
    /// and one of the two ways to turn. A puzzle of another degree than the
    /// twists' is refused before anything is drawn or applied. No twists, no
    /// change.
    pub fn scramble(&mut self, n: u32) -> (r: Result<(), PuzzleError>)
        requires
            old(self).wf(),
        ensures
            match r {
                Ok(_) => (n == 0 || old(self).degree == DEGREE) && final(self).wf() && exists|
                    draws: Seq<Draw>,
                |
                    draws.len() == n && draws_on_faces(draws) && final(self)@ == scrambled(
                        old(self)@,
                        draws,
                    ) && final(self)@.history == old(self)@.history,
                Err(e) => *final(self) == *old(self) && n > 0 && old(self).degree != DEGREE && e
                    == PuzzleError::DegreeMismatch,
            },
            n == 0 ==> *final(self) == *old(self),
    {
        if n == 0 {
            assert(self@ == scrambled(old(self)@, Seq::<Draw>::empty()));
            return Ok(());
        }
        if self.degree != DEGREE {
            return Err(PuzzleError::DegreeMismatch);
        }
        let mut rng = thread_rng();
        let ghost mut drawn: Seq<Draw> = Seq::empty();
        let mut i: u32 = 0;
        while i < n
            invariant
                i <= n,
                self.wf(),
                self.degree == DEGREE,
                drawn.len() == i,
                draws_on_faces(drawn),
                self@ == scrambled(old(self)@, drawn),
                self@.history == old(self)@.history,
            decreases n - i,
        {
            let cell: usize = random_index(&mut rng, 0, self.degree);
            let face: usize = random_index(&mut rng, 1, self.degree);
            let ccw: bool = random_chance(&mut rng, 1, 2);
            let draw = Draw { cell, face, ccw };
            self.apply_draw(draw);
            proof {
                assert(drawn.push(draw).drop_last() =~= drawn);
                drawn = drawn.push(draw);
            }
            i = i + 1;
        }
        Ok(())
    }

    /// Applies the face twist of one draw, without recording it.
    fn apply_draw(&mut self, draw: Draw)
        requires
            old(self).wf(),
            old(self).degree == DEGREE,
            draw.in_range(),
        ensures
            final(self).wf(),
            final(self).degree == DEGREE,
            final(self)@ == old(self)@.twist(
                face_twist_view(draw.cell as int, draw.face as int, draw.ccw),
            ),
    {
        let twist = face_twist(draw.cell, draw.face, draw.ccw).unwrap();
        self.twist(&twist).unwrap();
    }
}

} // verus!
