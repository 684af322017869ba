//! The live puzzle: applying twists, playing and taking back moves, resetting,
//! and the solved test, with the laws that relate them.

use vstd::prelude::*;
use crate::error::PuzzleError;
use crate::perm::{
    identity_table, inverse_table, lemma_identity_table, lemma_inverse_table,
    lemma_inverse_unique, lemma_product_inverse, product_table,
};
use crate::piece::{
    lemma_rotate_identity, lemma_rotate_rotate, lemma_rotate_signature, lemma_rotate_wf,
    lemma_turned_solved_piece, rotate_signature, Piece, PieceView,
};
use crate::twist::{Twist, TwistView};

verus! {

/// The live puzzle: its pieces, the moves made so far, and whether every
/// piece is solved.
#[derive(Debug, PartialEq, Eq)]
pub struct PuzzleState {
    pub degree: usize,
    pub pieces: Vec<Piece>,
    pub twist_stack: Vec<Twist>,
    pub is_solved: bool,
}

/// What a puzzle state is, as plain values.
pub struct StateView {
    pub degree: nat,
    pub pieces: Seq<PieceView>,
    pub history: Seq<TwistView>,
    pub solved: bool,
}

/// The pieces as plain values, in their order.
pub open spec fn piece_views(pieces: Seq<Piece>) -> Seq<PieceView> {
    pieces.map_values(|p: Piece| p@)
}

/// The twists as plain values, in their order.
pub open spec fn twist_views(twists: Seq<Twist>) -> Seq<TwistView> {
    twists.map_values(|t: Twist| t@)
}

/// Every piece is solved.
pub open spec fn all_solved(pieces: Seq<PieceView>) -> bool {
    forall|i: int| 0 <= i < pieces.len() ==> (#[trigger] pieces[i]).is_solved()
}

/// The pieces after a twist: those that touch its grip are turned by its
/// rotation, the others stay as they are.
pub open spec fn twist_pieces(pieces: Seq<PieceView>, t: TwistView) -> Seq<PieceView> {
    pieces.map_values(
        |p: PieceView|
            if p.touches(t.grip) {
                p.rotate(t.rot)
            } else {
                p
            },
    )
}

/// The pieces with every one turned back by its own attitude.
pub open spec fn reset_pieces(pieces: Seq<PieceView>) -> Seq<PieceView> {
    pieces.map_values(|p: PieceView| p.rotate(inverse_table(p.att)))
}

/// Every piece is valid and has `d` grips.
pub open spec fn valid_piece_views(pieces: Seq<PieceView>, d: nat) -> bool {
    forall|i: int| 0 <= i < pieces.len() ==> (#[trigger] pieces[i]).wf() && pieces[i].sig.len() == d
}

/// Every twist is valid and turns `d` grips.
pub open spec fn valid_twist_views(twists: Seq<TwistView>, d: nat) -> bool {
    forall|i: int| 0 <= i < twists.len() ==> (#[trigger] twists[i]).wf() && twists[i].rot.len() == d
}

/// Every piece that touches the twist's grip still touches it once the
/// twist has turned it.
pub open spec fn stays_on_grip(pieces: Seq<PieceView>, t: TwistView) -> bool {
    forall|i: int|
        0 <= i < pieces.len() && (#[trigger] pieces[i]).touches(t.grip) ==> pieces[i].rotate(
            t.rot,
        ).touches(t.grip)
}

impl View for PuzzleState {
    type V = StateView;

    open spec fn view(&self) -> StateView {
        StateView {
            degree: self.degree as nat,
            pieces: piece_views(self.pieces@),
            history: twist_views(self.twist_stack@),
            solved: self.is_solved,
        }
    }
}

impl StateView {
    /// Pieces and recorded twists are valid and of the puzzle's degree, and
    /// the solved flag says what the pieces show.
    pub open spec fn wf(self) -> bool {
        &&& valid_piece_views(self.pieces, self.degree)
        &&& valid_twist_views(self.history, self.degree)
        &&& self.solved == all_solved(self.pieces)
    }

    /// The state with the twist applied to the pieces and the solved flag
    /// taken anew; the history is not touched.
    pub open spec fn twist(self, t: TwistView) -> StateView {
        let pieces = twist_pieces(self.pieces, t);
        StateView { pieces, solved: all_solved(pieces), ..self }
    }

    /// The state after the twist was played: applied, then recorded.
    pub open spec fn twist_move(self, t: TwistView) -> StateView {
        let after = self.twist(t);
        StateView { history: self.history.push(t), ..after }
    }

    /// The state after the last recorded twist was taken back; with nothing
    /// recorded, the state itself.
    pub open spec fn undo(self) -> StateView {
        if self.history.len() == 0 {
            self
        } else {
            let after = self.twist(self.history.last().inverse());
            StateView { history: self.history.drop_last(), ..after }
        }
    }

    /// The state with every piece turned back home; the history stays.
    pub open spec fn reset(self) -> StateView {
        let pieces = reset_pieces(self.pieces);
        StateView { pieces, solved: all_solved(pieces), ..self }
    }
}

/// Every piece is valid and has `d` grips.
pub open spec fn valid_pieces(pieces: Seq<Piece>, d: usize) -> bool {
    forall|i: int| 0 <= i < pieces.len() ==> (#[trigger] pieces[i]).wf() && pieces[i].att.deg == d
}

/// Every twist is valid and turns `d` grips.
pub open spec fn valid_twists(twists: Seq<Twist>, d: usize) -> bool {
    forall|i: int| 0 <= i < twists.len() ==> (#[trigger] twists[i]).wf() && twists[i].rot.deg == d
}

impl PuzzleState {
    /// Pieces and recorded twists are valid and of the puzzle's degree.
    pub open spec fn wf_parts(&self) -> bool {
        &&& valid_pieces(self.pieces@, self.degree)
        &&& valid_twists(self.twist_stack@, self.degree)
    }

    /// The parts are valid and the solved flag says what the pieces show.
    pub open spec fn wf(&self) -> bool {
        &&& self.wf_parts()
        &&& self.is_solved == all_solved(self@.pieces)
    }

    /// Whether the state is valid, found out by looking at every piece and
    /// every recorded twist.
    pub fn is_valid(&self) -> (r: bool)
        ensures
            r == self.wf(),
    {
        let mut i: usize = 0;
        while i < self.pieces.len()
            invariant
                i <= self.pieces@.len(),
                valid_pieces(self.pieces@.take(i as int), self.degree),
            decreases self.pieces@.len() - i,
        {
            if !self.pieces[i].is_valid() || self.pieces[i].degree() != self.degree {
                return false;
            }
            assert(self.pieces@.take(i + 1) =~= self.pieces@.take(i as int).push(
                self.pieces@[i as int],
            ));
            i = i + 1;
        }
        assert(self.pieces@.take(i as int) =~= self.pieces@);
        let mut k: usize = 0;
        while k < self.twist_stack.len()
            invariant
                k <= self.twist_stack@.len(),
                valid_pieces(self.pieces@, self.degree),
                valid_twists(self.twist_stack@.take(k as int), self.degree),
            decreases self.twist_stack@.len() - k,
        {
            if !self.twist_stack[k].is_valid() || self.twist_stack[k].rot.deg != self.degree {
                return false;
            }
            assert(self.twist_stack@.take(k + 1) =~= self.twist_stack@.take(k as int).push(
                self.twist_stack@[k as int],
            ));
            k = k + 1;
        }
        assert(self.twist_stack@.take(k as int) =~= self.twist_stack@);
        self.is_solved == every_piece_solved(&self.pieces)
    }

    /// Applies the twist: every piece that touches its grip is turned by its
    /// rotation, and the solved flag is taken anew. The history is not
    /// touched. A rotation of another degree than the puzzle's is refused
    /// first, then a grip that the puzzle does not have; a refused twist
    /// leaves the state as it was.
    pub fn twist(&mut self, twist: &Twist) -> (r: Result<(), PuzzleError>)
        requires
            old(self).wf(),
            twist.rot.wf(),
        ensures
            match r {
                Ok(_) => twist.rot.deg == old(self).degree && twist.grip < old(self).degree
                    && final(self).wf() && final(self)@ == old(self)@.twist(twist@),
                Err(e) => *final(self) == *old(self) && if twist.rot.deg != old(self).degree {
                    e == PuzzleError::DegreeMismatch
                } else {
                    twist.grip >= old(self).degree && e == PuzzleError::IndexOutOfRange
                },
            },
    {
        if twist.rot.deg != self.degree {
            return Err(PuzzleError::DegreeMismatch);
        }
        if twist.grip >= self.degree {
            return Err(PuzzleError::IndexOutOfRange);
        }
        let mut new_pieces: Vec<Piece> = Vec::new();
        let mut i: usize = 0;
        while i < self.pieces.len()
            invariant
                i <= self.pieces@.len(),
                self.wf(),
                twist.rot.wf(),
                twist.rot.deg == self.degree,
                twist.grip < self.degree,
                new_pieces@.len() == i,
                valid_pieces(new_pieces@, self.degree),
                forall|j: int|
                    0 <= j < i ==> (#[trigger] new_pieces@[j])@ == twist_pieces(
                        self@.pieces,
                        twist@,
                    )[j],
            decreases self.pieces@.len() - i,
        {
            let piece = &self.pieces[i];
            if piece.grip_state(twist.grip)? == 1 {
                new_pieces.push(piece.rotate(&twist.rot)?);
            } else {
                new_pieces.push(piece.clone());
            }
            i = i + 1;
        }
        proof {
            assert(piece_views(new_pieces@) =~= twist_pieces(self@.pieces, twist@));
        }
        self.pieces = new_pieces;
        self.is_solved = self.check_solved();
        Ok(())
    }

    /// Plays the twist: applies it, then records it on the history. A
    /// refused twist is not recorded.
    pub fn twist_move(&mut self, twist: &Twist) -> (r: Result<(), PuzzleError>)
        requires
            old(self).wf(),
            twist.rot.wf(),
        ensures
            match r {
                Ok(_) => twist.rot.deg == old(self).degree && twist.grip < old(self).degree
                    && final(self).wf() && final(self)@ == old(self)@.twist_move(twist@),
                Err(e) => *final(self) == *old(self) && if twist.rot.deg != old(self).degree {
                    e == PuzzleError::DegreeMismatch
                } else {
                    twist.grip >= old(self).degree && e == PuzzleError::IndexOutOfRange
                },
            },
    {
        self.twist(twist)?;
        self.twist_stack.push(twist.clone());
        proof {
            assert(self@.history =~= old(self)@.history.push(twist@));
        }
        Ok(())
    }

    /// Takes back the last recorded twist: applies its inverse and drops it
    /// from the history. With nothing recorded, nothing happens.
    pub fn undo(&mut self)
        requires
            old(self).wf(),
        ensures
            final(self).wf(),
            final(self)@ == old(self)@.undo(),
    {
        match self.twist_stack.pop() {
            Some(last) => {
                proof {
                    assert(last == old(self).twist_stack@[old(self).twist_stack@.len() - 1]);
                    assert(self@.history =~= old(self)@.history.drop_last());
                    assert(last@ == old(self)@.history.last());
                }
                let back = last.inverse();
                self.twist(&back).unwrap();
            },
            None => {
                proof {
                    assert(self@.history =~= old(self)@.history);
                }
            },
        }
    }

    /// Turns every piece back by its own attitude, whatever was played. The
    /// history stays as it is, and the puzzle is solved afterwards.
    pub fn reset(&mut self)
        requires
            old(self).wf(),
        ensures
            final(self).wf(),
            final(self)@ == old(self)@.reset(),
            final(self).is_solved,
    {
        let mut new_pieces: Vec<Piece> = Vec::new();
        let mut i: usize = 0;
        while i < self.pieces.len()
            invariant
                i <= self.pieces@.len(),
                self.wf(),
                new_pieces@.len() == i,
                valid_pieces(new_pieces@, self.degree),
                forall|j: int|
                    0 <= j < i ==> (#[trigger] new_pieces@[j])@ == reset_pieces(self@.pieces)[j],
            decreases self.pieces@.len() - i,
        {
            let piece = &self.pieces[i];
            let back = piece.att.inverse();
            new_pieces.push(piece.rotate(&back).unwrap());
            i = i + 1;
        }
        proof {
            assert(piece_views(new_pieces@) =~= reset_pieces(self@.pieces));
            lemma_reset_solves(self@.pieces);
        }
        self.pieces = new_pieces;
        self.is_solved = self.check_solved();
    }

    /// Whether every piece is solved, worked out from the pieces.
    pub fn check_solved(&mut self) -> (r: bool)
        requires
            old(self).wf_parts(),
        ensures
            r == all_solved(old(self)@.pieces),
            *final(self) == *old(self),
    {
        every_piece_solved(&self.pieces)
    }
}

/// Whether every one of the pieces is solved.
fn every_piece_solved(pieces: &Vec<Piece>) -> (r: bool)
    requires
        forall|i: int| 0 <= i < pieces@.len() ==> (#[trigger] pieces@[i]).wf(),
    ensures
        r == all_solved(piece_views(pieces@)),
{
    let mut i: usize = 0;
    while i < pieces.len()
        invariant
            i <= pieces@.len(),
            forall|i: int| 0 <= i < pieces@.len() ==> (#[trigger] pieces@[i]).wf(),
            forall|j: int| 0 <= j < i ==> (#[trigger] piece_views(pieces@)[j]).is_solved(),
        decreases pieces@.len() - i,
    {
        if !pieces[i].is_solved() {
            assert(!piece_views(pieces@)[i as int].is_solved());
            return false;
        }
        i = i + 1;
    }
    true
}

/// A valid state is valid as plain values.
pub proof fn lemma_state_view_wf(s: PuzzleState)
    requires
        s.wf(),
    ensures
        s@.wf(),
{
    assert forall|i: int| 0 <= i < s@.pieces.len() implies (#[trigger] s@.pieces[i]).wf()
        && s@.pieces[i].sig.len() == s@.degree by {
        assert(s.pieces@[i].wf());
    }
    assert forall|i: int| 0 <= i < s@.history.len() implies (#[trigger] s@.history[i]).wf()
        && s@.history[i].rot.len() == s@.degree by {
        assert(s.twist_stack@[i].wf());
    }
}

/// Applying a twist and then its inverse gives back the state, pieces in
/// their order with signatures and attitudes, exactly if the pieces that the
/// twist turns stay on its grip.
pub proof fn lemma_twist_then_inverse(s: StateView, t: TwistView)
    requires
        s.wf(),
        t.wf(),
        t.rot.len() == s.degree,
    ensures
        stays_on_grip(s.pieces, t) <==> s.twist(t).twist(t.inverse()) == s,
{
    if stays_on_grip(s.pieces, t) {
        lemma_twist_round_trip(s.pieces, t);
    }
    if s.twist(t).twist(t.inverse()) == s {
        lemma_round_trip_stays(s.pieces, t);
    }
}

/// Playing a twist and then taking it back gives back the state, with its
/// pieces, solved flag and history, exactly if the pieces that the twist
/// turns stay on its grip.
pub proof fn lemma_move_then_undo(s: StateView, t: TwistView)
    requires
        s.wf(),
        t.wf(),
        t.rot.len() == s.degree,
    ensures
        stays_on_grip(s.pieces, t) <==> s.twist_move(t).undo() == s,
{
    let played = s.twist_move(t);
    assert(played.history.last() == t);
    assert(played.history.drop_last() =~= s.history);
    if stays_on_grip(s.pieces, t) {
        lemma_twist_round_trip(s.pieces, t);
    }
    if played.undo() == s {
        lemma_round_trip_stays(s.pieces, t);
    }
}

/// A twist leaves a solved puzzle solved exactly if its rotation leaves the
/// signature of every piece that it turns as it was.
pub proof fn lemma_twist_of_solved(s: StateView, t: TwistView)
    requires
        s.wf(),
        s.solved,
        t.wf(),
        t.rot.len() == s.degree,
    ensures
        s.twist(t).solved <==> forall|i: int|
            0 <= i < s.pieces.len() && (#[trigger] s.pieces[i]).touches(t.grip)
                ==> rotate_signature(s.pieces[i].sig, t.rot) == s.pieces[i].sig,
{
    let after = twist_pieces(s.pieces, t);
    assert forall|i: int| 0 <= i < s.pieces.len() implies ((#[trigger] after[i]).is_solved() <==> (
    s.pieces[i].touches(t.grip) ==> rotate_signature(s.pieces[i].sig, t.rot)
        == s.pieces[i].sig)) by {
        let p = s.pieces[i];
        assert(p.wf() && p.is_solved());
        if p.touches(t.grip) {
            lemma_turned_solved_piece(p, t.rot);
        }
    }
    if all_solved(after) {
        assert forall|i: int|
            0 <= i < s.pieces.len() && (#[trigger] s.pieces[i]).touches(
                t.grip,
            ) implies rotate_signature(s.pieces[i].sig, t.rot) == s.pieces[i].sig by {
            assert(after[i].is_solved());
        }
    }
}

/// Resetting twice gives what resetting once gives, and a reset state is
/// solved.
pub proof fn lemma_reset_twice(s: StateView)
    requires
        s.wf(),
    ensures
        s.reset().reset() == s.reset(),
        s.reset().solved,
{
    lemma_reset_idempotent(s.pieces);
    lemma_reset_solves(s.pieces);
}

/// A twist whose rotation leaves its own grip in place keeps on the grip
/// every piece that touches it.
pub proof fn lemma_fixed_grip_stays(pieces: Seq<PieceView>, t: TwistView)
    requires
        valid_piece_views(pieces, t.rot.len()),
        t.wf(),
        t.rot[t.grip] == t.grip,
    ensures
        stays_on_grip(pieces, t),
{
    assert forall|i: int| 0 <= i < pieces.len() && (#[trigger] pieces[i]).touches(
        t.grip,
    ) implies pieces[i].rotate(t.rot).touches(t.grip) by {
        lemma_rotate_signature(pieces[i].sig, t.rot);
        assert(rotate_signature(pieces[i].sig, t.rot)[t.rot[t.grip] as int]
            == pieces[i].sig[t.grip]);
    }
}

/// Where the turned pieces stay on the grip, the inverse twist brings every
/// piece back to what it was.
pub proof fn lemma_twist_round_trip(pieces: Seq<PieceView>, t: TwistView)
    requires
        valid_piece_views(pieces, t.rot.len()),
        t.wf(),
        stays_on_grip(pieces, t),
    ensures
        twist_pieces(twist_pieces(pieces, t), t.inverse()) == pieces,
{
    let there = twist_pieces(pieces, t);
    let back = twist_pieces(there, t.inverse());
    lemma_inverse_table(t.rot);
    lemma_product_inverse(t.rot);
    assert forall|i: int| 0 <= i < pieces.len() implies back[i] == pieces[i] by {
        let p = pieces[i];
        assert(p.wf());
        if p.touches(t.grip) {
            lemma_rotate_rotate(p, t.rot, inverse_table(t.rot));
            lemma_rotate_identity(p);
        }
    }
    assert(back =~= pieces);
}

/// Where the inverse twist brings every piece back, the turned pieces had
/// stayed on the grip.
pub proof fn lemma_round_trip_stays(pieces: Seq<PieceView>, t: TwistView)
    requires
        twist_pieces(twist_pieces(pieces, t), t.inverse()) == pieces,
    ensures
        stays_on_grip(pieces, t),
{
    let there = twist_pieces(pieces, t);
    let back = twist_pieces(there, t.inverse());
    assert forall|i: int| 0 <= i < pieces.len() && (#[trigger] pieces[i]).touches(
        t.grip,
    ) implies pieces[i].rotate(t.rot).touches(t.grip) by {
        if !there[i].touches(t.grip) {
            assert(back[i] == there[i]);
        }
    }
}

/// Turning every piece back home a second time changes nothing.
pub proof fn lemma_reset_idempotent(pieces: Seq<PieceView>)
    requires
        forall|i: int| 0 <= i < pieces.len() ==> (#[trigger] pieces[i]).wf(),
    ensures
        reset_pieces(reset_pieces(pieces)) == reset_pieces(pieces),
{
    let once = reset_pieces(pieces);
    let twice = reset_pieces(once);
    lemma_reset_solves(pieces);
    assert forall|i: int| 0 <= i < pieces.len() implies twice[i] == once[i] by {
        let p = pieces[i];
        assert(p.wf());
        lemma_inverse_table(p.att);
        lemma_rotate_wf(p, inverse_table(p.att));
        let id = identity_table(p.sig.len());
        assert(once[i].att == id);
        lemma_identity_table(p.sig.len());
        lemma_inverse_unique(id, id);
        lemma_rotate_identity(once[i]);
    }
    assert(twice =~= once);
}

/// Turned back by its own attitude, every valid piece is solved and at home.
pub proof fn lemma_reset_solves(pieces: Seq<PieceView>)
    requires
        forall|i: int| 0 <= i < pieces.len() ==> (#[trigger] pieces[i]).wf(),
    ensures
        all_solved(reset_pieces(pieces)),
        forall|i: int|
            0 <= i < pieces.len() ==> (#[trigger] reset_pieces(pieces)[i]).att == identity_table(
                pieces[i].sig.len(),
            ),
{
    let after = reset_pieces(pieces);
    assert forall|i: int| 0 <= i < pieces.len() implies (#[trigger] after[i]).att
        == identity_table(pieces[i].sig.len()) && after[i].is_solved() by {
        let p = pieces[i];
        assert(p.wf());
        lemma_inverse_table(p.att);
        assert(product_table(p.att, inverse_table(p.att)) =~= identity_table(p.att.len()));
    }
}

} // verus!
