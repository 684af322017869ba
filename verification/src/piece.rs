//! Oriented pieces: a signature over the grips and the attitude gathered by
//! turning, and the laws of turning a piece.

use vstd::prelude::*;
use crate::error::PuzzleError;
use crate::perm::{
    identity_table, inverse_table, is_permutation, lemma_inverse_table, lemma_product_associative,
    lemma_product_identity, lemma_product_table, product_table, Permutation,
};

verus! {

/// An oriented piece: `sig[g]` is 1 where the piece touches grip `g`, and
/// `att` is the rotation it has gathered since it lay in its home position.
#[derive(Debug, PartialEq, Eq)]
pub struct Piece {
    pub sig: Vec<u8>,
    pub att: Permutation,
}

/// What a piece is, as plain sequences.
pub struct PieceView {
    pub sig: Seq<u8>,
    pub att: Seq<usize>,
}

/// The signature carried along by `r`: what stood at `i` stands at `r[i]`.
pub open spec fn rotate_signature(sig: Seq<u8>, r: Seq<usize>) -> Seq<u8> {
    Seq::new(sig.len(), |k: int| sig[inverse_table(r)[k] as int])
}

impl PieceView {
    /// The attitude is a permutation of as many grips as the signature has.
    pub open spec fn wf(self) -> bool {
        &&& is_permutation(self.att)
        &&& self.att.len() == self.sig.len()
    }

    /// The piece after `r` has turned it.
    pub open spec fn rotate(self, r: Seq<usize>) -> PieceView {
        PieceView { sig: rotate_signature(self.sig, r), att: product_table(self.att, r) }
    }

    /// The signature reads the same through the attitude.
    pub open spec fn is_solved(self) -> bool {
        forall|i: int| 0 <= i < self.sig.len() ==> self.sig[i] == self.sig[self.att[i] as int]
    }

    /// The piece touches grip `g`.
    pub open spec fn touches(self, g: int) -> bool {
        0 <= g < self.sig.len() && self.sig[g] == 1
    }
}

impl View for Piece {
    type V = PieceView;

    open spec fn view(&self) -> PieceView {
        PieceView { sig: self.sig@, att: self.att@ }
    }
}

impl Clone for Piece {
    fn clone(&self) -> (r: Self)
        ensures
            r@ == self@,
            r.att.deg == self.att.deg,
    {
        Piece { sig: self.sig.clone(), att: self.att.clone() }
    }
}

impl Piece {
    /// The attitude is a valid permutation of the signature's grips.
    pub open spec fn wf(&self) -> bool {
        &&& self.att.wf()
        &&& self.att.deg == self.sig@.len()
    }

    /// Whether the attitude is a valid permutation of the signature's grips,
    /// found out by looking at it.
    pub fn is_valid(&self) -> (r: bool)
        ensures
            r == self.wf(),
    {
        self.att.deg == self.sig.len() && self.att.is_valid()
    }

    /// A piece in its home position: the given signature, not yet turned.
    pub fn new(sig: Vec<u8>) -> (r: Piece)
        ensures
            r.wf(),
            r@.sig == sig@,
            r@.att == identity_table(sig@.len()),
    {
        let deg: usize = sig.len();
        Piece { sig, att: Permutation::identity(deg) }
    }

    /// The number of grips the piece is described over.
    pub fn degree(&self) -> (r: usize)
        ensures
            r == self.att.deg,
            self.wf() ==> r == self@.sig.len(),
    {
        self.att.deg
    }

    /// The marker the piece shows at `grip`.
    pub fn grip_state(&self, grip: usize) -> (r: Result<u8, PuzzleError>)
        ensures
            match r {
                Ok(marker) => grip < self@.sig.len() && marker == self@.sig[grip as int],
                Err(e) => grip >= self@.sig.len() && e == PuzzleError::IndexOutOfRange,
            },
    {
        if grip < self.sig.len() {
            Ok(self.sig[grip])
        } else {
            Err(PuzzleError::IndexOutOfRange)
        }
    }

    /// The piece turned by `rot`; the piece itself is left as it is.
    pub fn rotate(&self, rot: &Permutation) -> (r: Result<Piece, PuzzleError>)
        requires
            self.wf(),
            rot.wf(),
        ensures
            match r {
                Ok(p) => rot.deg == self.att.deg && p.wf() && p@ == self@.rotate(rot@),
                Err(e) => rot.deg != self.att.deg && e == PuzzleError::DegreeMismatch,
            },
    {
        let n: usize = self.degree();
        if rot.deg != n {
            return Err(PuzzleError::DegreeMismatch);
        }
        let mut new_sig: Vec<u8> = vec![0u8; n];
        let mut i: usize = 0;
        while i < n
            invariant
                i <= n,
                n == self.att.deg,
                n == rot.deg,
                self.wf(),
                rot.wf(),
                new_sig@.len() == n,
                forall|j: int| 0 <= j < i ==> new_sig@[#[trigger] rot.perm@[j] as int] == self.sig@[j],
            decreases n - i,
        {
            let target: usize = rot.perm[i];
            new_sig[target] = self.sig[i];
            i = i + 1;
        }
        proof {
            lemma_rotate_signature_unique(self.sig@, rot@, new_sig@);
        }
        match self.att.product(rot) {
            Ok(att) => Ok(Piece { sig: new_sig, att }),
            Err(e) => Err(e),
        }
    }

    /// Whether the piece looks as it did at home.
    pub fn is_solved(&self) -> (r: bool)
        requires
            self.wf(),
        ensures
            r == self@.is_solved(),
    {
        let n: usize = self.degree();
        let mut i: usize = 0;
        while i < n
            invariant
                i <= n,
                n == self.att.deg,
                self.wf(),
                forall|j: int| 0 <= j < i ==> self.sig@[j] == self.sig@[self.att.perm@[j] as int],
            decreases n - i,
        {
            if self.sig[i] != self.sig[self.att.perm[i]] {
                assert(self@.sig[i as int] != self@.sig[self@.att[i as int] as int]);
                return false;
            }
            i = i + 1;
        }
        true
    }

    /// Whether the two pieces show the same signature, whatever their attitudes.
    pub fn overlaps(&self, other: &Piece) -> (r: Result<bool, PuzzleError>)
        ensures
            match r {
                Ok(same) => self@.sig.len() == other@.sig.len() && same == (self@.sig
                    == other@.sig),
                Err(e) => self@.sig.len() != other@.sig.len() && e
                    == PuzzleError::DegreeMismatch,
            },
    {
        let n: usize = self.sig.len();
        if other.sig.len() != n {
            return Err(PuzzleError::DegreeMismatch);
        }
        let mut i: usize = 0;
        while i < n
            invariant
                i <= n,
                n == self.sig@.len(),
                n == other.sig@.len(),
                forall|j: int| 0 <= j < i ==> self.sig@[j] == other.sig@[j],
            decreases n - i,
        {
            if self.sig[i] != other.sig[i] {
                return Ok(false);
            }
            i = i + 1;
        }
        proof {
            assert(self.sig@ =~= other.sig@);
        }
        Ok(true)
    }
}

/// A rotated signature shows at `r[i]` what the old one showed at `i`.
pub proof fn lemma_rotate_signature(sig: Seq<u8>, r: Seq<usize>)
    requires
        is_permutation(r),
        r.len() == sig.len(),
    ensures
        rotate_signature(sig, r).len() == sig.len(),
        forall|i: int| 0 <= i < sig.len() ==> rotate_signature(sig, r)[#[trigger] r[i] as int]
            == sig[i],
{
    lemma_inverse_table(r);
}

/// Only the rotated signature shows at every `r[i]` what the old one showed
/// at `i`.
pub proof fn lemma_rotate_signature_unique(sig: Seq<u8>, r: Seq<usize>, t: Seq<u8>)
    requires
        is_permutation(r),
        r.len() == sig.len(),
        t.len() == sig.len(),
        forall|i: int| 0 <= i < sig.len() ==> t[#[trigger] r[i] as int] == sig[i],
    ensures
        t == rotate_signature(sig, r),
{
    lemma_inverse_table(r);
    let inv = inverse_table(r);
    assert forall|k: int| 0 <= k < sig.len() implies t[k] == rotate_signature(sig, r)[k] by {
        let w = inv[k] as int;
        assert(r[w] == k);
        assert(t[r[w] as int] == sig[w]);
    }
    assert(t =~= rotate_signature(sig, r));
}

/// A valid piece turned by a permutation of its degree is a valid piece of
/// that degree.
pub proof fn lemma_rotate_wf(p: PieceView, r: Seq<usize>)
    requires
        p.wf(),
        is_permutation(r),
        r.len() == p.sig.len(),
    ensures
        p.rotate(r).wf(),
        p.rotate(r).sig.len() == p.sig.len(),
{
    lemma_product_table(p.att, r);
}

/// Turning by the identity changes neither signature nor attitude.
pub proof fn lemma_rotate_identity(p: PieceView)
    requires
        p.wf(),
    ensures
        p.rotate(identity_table(p.sig.len())) == p,
{
    let id = identity_table(p.sig.len());
    lemma_rotate_signature_unique(p.sig, id, p.sig);
    lemma_product_identity(p.att);
}

/// Turning by `a` and then by `b` is turning by the product of `a` and `b`.
pub proof fn lemma_rotate_rotate(p: PieceView, a: Seq<usize>, b: Seq<usize>)
    requires
        p.wf(),
        is_permutation(a),
        is_permutation(b),
        a.len() == p.sig.len(),
        b.len() == p.sig.len(),
    ensures
        p.rotate(a).rotate(b) == p.rotate(product_table(a, b)),
{
    let ab = product_table(a, b);
    lemma_product_table(a, b);
    let once = rotate_signature(p.sig, a);
    let twice = rotate_signature(once, b);
    lemma_rotate_signature(p.sig, a);
    lemma_rotate_signature(once, b);
    assert forall|i: int| 0 <= i < p.sig.len() implies twice[#[trigger] ab[i] as int]
        == p.sig[i] by {
        assert(once[a[i] as int] == p.sig[i]);
        assert(twice[b[a[i] as int] as int] == once[a[i] as int]);
    }
    lemma_rotate_signature_unique(p.sig, ab, twice);
    lemma_product_associative(p.att, a, b);
}

/// A solved piece that is turned stays solved exactly if the turn leaves
/// its signature as it was.
pub proof fn lemma_turned_solved_piece(p: PieceView, r: Seq<usize>)
    requires
        p.wf(),
        p.is_solved(),
        is_permutation(r),
        r.len() == p.sig.len(),
    ensures
        p.rotate(r).is_solved() <==> rotate_signature(p.sig, r) == p.sig,
{
    let turned = p.rotate(r);
    lemma_rotate_signature(p.sig, r);
    assert forall|i: int| 0 <= i < p.sig.len() implies turned.sig[#[trigger] turned.att[i] as int]
        == p.sig[i] by {
        assert(turned.sig[r[p.att[i] as int] as int] == p.sig[p.att[i] as int]);
    }
    if turned.is_solved() {
        assert forall|i: int| 0 <= i < p.sig.len() implies turned.sig[i] == p.sig[i] by {
            assert(turned.sig[i] == turned.sig[turned.att[i] as int]);
        }
        assert(turned.sig =~= p.sig);
    }
}

} // verus!
