//! Making a puzzle: all the pieces that a set of generators makes of a few
//! base pieces, found breadth first.

use vstd::prelude::*;
use vstd::set_lib::{lemma_int_range, lemma_len_subset, set_int_range};
use crate::error::PuzzleError;
use crate::perm::{identity_table, Permutation};
use crate::piece::{rotate_signature, Piece, PieceView};
use crate::state::{PuzzleState, StateView};
use crate::twist::TwistView;

verus! {

/// The signatures of the pieces, in their order.
pub open spec fn signatures(pieces: Seq<Piece>) -> Seq<Seq<u8>> {
    pieces.map_values(|p: Piece| p@.sig)
}

/// The tables of the permutations, in their order.
pub open spec fn tables(perms: Seq<Permutation>) -> Seq<Seq<usize>> {
    perms.map_values(|g: Permutation| g@)
}

/// Pieces with the given signatures, none of them turned yet.
pub open spec fn home_pieces(sigs: Seq<Seq<u8>>, d: nat) -> Seq<PieceView> {
    sigs.map_values(|s: Seq<u8>| PieceView { sig: s, att: identity_table(d) })
}

/// What entry `h` of `list` adds to the list when it is turned by the first
/// `g` generators in their order: each turned signature that is not among the
/// `h` entries before it.
pub open spec fn discoveries(
    list: Seq<Seq<u8>>,
    h: int,
    gens: Seq<Seq<usize>>,
    g: nat,
) -> Seq<Seq<u8>>
    decreases g,
{
    if g == 0 {
        Seq::empty()
    } else {
        let earlier = discoveries(list, h, gens, (g - 1) as nat);
        let turned = rotate_signature(list[h], gens[g - 1]);
        if list.take(h).contains(turned) {
            earlier
        } else {
            earlier.push(turned)
        }
    }
}

/// The list of signatures once its first `k` entries have been expanded,
/// each by all the generators: it starts as `base`, and expanding an entry
/// appends what that entry discovers.
pub open spec fn orbit_list(base: Seq<Seq<u8>>, gens: Seq<Seq<usize>>, k: nat) -> Seq<Seq<u8>>
    decreases k,
{
    if k == 0 {
        base
    } else {
        let before = orbit_list(base, gens, (k - 1) as nat);
        before + discoveries(before, k - 1, gens, gens.len())
    }
}

/// Expansion stops at `n`: there was an entry to expand at every step before
/// `n`, and after `n` steps every entry has been expanded.
pub open spec fn orbit_complete(base: Seq<Seq<u8>>, gens: Seq<Seq<usize>>, n: nat) -> bool {
    &&& orbit_list(base, gens, n).len() == n
    &&& forall|k: nat| k < n ==> #[trigger] orbit_list(base, gens, k).len() > k
}

/// There is a generator, and every generator and every base piece has the
/// degree of the first generator.
pub open spec fn common_degree(base: Seq<Piece>, gens: Seq<Permutation>) -> bool {
    &&& gens.len() > 0
    &&& forall|i: int| 0 <= i < gens.len() ==> (#[trigger] gens[i]).deg == gens[0].deg
    &&& forall|i: int| 0 <= i < base.len() ==> (#[trigger] base[i]).att.deg == gens[0].deg
}

/// `s` is the fresh puzzle that `base` and `gens` give: the pieces are the
/// completed orbit list, all at home, and nothing has been played.
pub open spec fn generated_from(base: Seq<Seq<u8>>, gens: Seq<Seq<usize>>, s: StateView) -> bool {
    &&& gens.len() > 0
    &&& s.degree == gens[0].len()
    &&& orbit_complete(base, gens, s.pieces.len())
    &&& s.pieces == home_pieces(orbit_list(base, gens, s.pieces.len()), s.degree)
    &&& s.history == Seq::<TwistView>::empty()
    &&& s.solved
}

impl PuzzleState {
    /// The fresh puzzle whose pieces are all that the generators make of the
    /// base pieces. The pieces are found breadth first: the list starts as the
    /// base pieces, each entry in turn is turned by every generator in order,
    /// and a turned piece joins the end of the list unless its signature is
    /// among the entries before the one being turned. Every piece is at home.
    pub fn generate(base_pieces: &Vec<Piece>, generators: &Vec<Permutation>) -> (r: Result<
        PuzzleState,
        PuzzleError,
    >)
        requires
            forall|i: int| 0 <= i < base_pieces@.len() ==> (#[trigger] base_pieces@[i]).wf(),
            forall|i: int| 0 <= i < generators@.len() ==> (#[trigger] generators@[i]).wf(),
        ensures
            match r {
                Ok(s) => common_degree(base_pieces@, generators@) && s.wf() && generated_from(
                    signatures(base_pieces@),
                    tables(generators@),
                    s@,
                ),
                Err(e) => !common_degree(base_pieces@, generators@) && e == if generators@.len()
                    == 0 {
                    PuzzleError::EmptyGenerators
                } else {
                    PuzzleError::DegreeMismatch
                },
            },
    {
        if generators.len() == 0 {
            return Err(PuzzleError::EmptyGenerators);
        }
        let d: usize = generators[0].deg;
        if !degrees_agree(base_pieces, generators) {
            return Err(PuzzleError::DegreeMismatch);
        }
        let mut all: Vec<Piece> = home_copies(base_pieces, d);
        let ghost base = signatures(base_pieces@);
        let ghost gens = tables(generators@);
        let mut h: usize = 0;
        // The first `h` pieces are finalized, the rest wait in the queue. Each
        // step either finalizes a signature that was not finalized before, of
        // which there are finitely many, or takes from the queue a piece whose
        // signature was finalized already and adds no such piece to it.
        while h < all.len()
            invariant
                h <= all@.len(),
                at_home(all@, d as nat),
                common_degree(base_pieces@, generators@),
                d == generators@[0].deg,
                forall|i: int| 0 <= i < generators@.len() ==> (#[trigger] generators@[i]).wf(),
                gens == tables(generators@),
                signatures(all@) == orbit_list(base, gens, h as nat),
                forall|k: nat| k < h ==> #[trigger] orbit_list(base, gens, k).len() > k,
            decreases
                    unfinalized(signatures(all@), h as int, d as nat),
                    stale(signatures(all@), h as int).len(),
        {
            let ghost list = signatures(all@);
            expand(&mut all, h, generators, d);
            proof {
                lemma_discoveries(list, h as int, gens, gens.len(), d as nat);
                lemma_expansion_progress(
                    list,
                    h as int,
                    discoveries(list, h as int, gens, gens.len()),
                    d as nat,
                );
            }
            h = h + 1;
        }
        let state = PuzzleState { degree: d, pieces: all, twist_stack: Vec::new(), is_solved: true };
        proof {
            assert(signatures(state.pieces@).len() == h);
            assert(state@.pieces =~= home_pieces(signatures(state.pieces@), d as nat));
            assert(forall|i: int|
                0 <= i < state@.pieces.len() ==> (#[trigger] state@.pieces[i]).is_solved());
            assert(state@.history =~= Seq::<TwistView>::empty());
            assert(gens[0] == generators@[0]@);
        }
        Ok(state)
    }
}

/// Every piece is valid, has `d` grips and has not been turned.
spec fn at_home(pieces: Seq<Piece>, d: nat) -> bool {
    forall|i: int|
        0 <= i < pieces.len() ==> (#[trigger] pieces[i]).wf() && pieces[i].att.deg == d
            && pieces[i]@.att == identity_table(d)
}

/// Whether every generator and every base piece has the first generator's
/// degree.
fn degrees_agree(base_pieces: &Vec<Piece>, generators: &Vec<Permutation>) -> (r: bool)
    requires
        generators@.len() > 0,
    ensures
        r == common_degree(base_pieces@, generators@),
{
    let d: usize = generators[0].deg;
    let mut g: usize = 0;
    while g < generators.len()
        invariant
            g <= generators@.len(),
            generators@.len() > 0,
            d == generators@[0].deg,
            forall|i: int| 0 <= i < g ==> (#[trigger] generators@[i]).deg == d,
        decreases generators@.len() - g,
    {
        if generators[g].deg != d {
            return false;
        }
        g = g + 1;
    }
    let mut b: usize = 0;
    while b < base_pieces.len()
        invariant
            b <= base_pieces@.len(),
            generators@.len() > 0,
            d == generators@[0].deg,
            forall|i: int| 0 <= i < generators@.len() ==> (#[trigger] generators@[i]).deg == d,
            forall|i: int| 0 <= i < b ==> (#[trigger] base_pieces@[i]).att.deg == d,
        decreases base_pieces@.len() - b,
    {
        if base_pieces[b].degree() != d {
            return false;
        }
        b = b + 1;
    }
    true
}

/// The base pieces again, each with its signature and at home.
fn home_copies(base_pieces: &Vec<Piece>, d: usize) -> (r: Vec<Piece>)
    requires
        forall|i: int|
            0 <= i < base_pieces@.len() ==> (#[trigger] base_pieces@[i]).wf()
                && base_pieces@[i].att.deg == d,
    ensures
        at_home(r@, d as nat),
        signatures(r@) == signatures(base_pieces@),
{
    let mut copies: Vec<Piece> = Vec::new();
    let mut b: usize = 0;
    while b < base_pieces.len()
        invariant
            b <= base_pieces@.len(),
            forall|i: int|
                0 <= i < base_pieces@.len() ==> (#[trigger] base_pieces@[i]).wf()
                    && base_pieces@[i].att.deg == d,
            at_home(copies@, d as nat),
            copies@.len() == b,
            forall|i: int| 0 <= i < b ==> (#[trigger] copies@[i])@.sig == base_pieces@[i]@.sig,
        decreases base_pieces@.len() - b,
    {
        copies.push(Piece::new(base_pieces[b].sig.clone()));
        b = b + 1;
    }
    proof {
        assert(signatures(copies@) =~= signatures(base_pieces@));
    }
    copies
}

/// Whether the candidate's signature is among the first `h` pieces.
fn is_finalized(pieces: &Vec<Piece>, h: usize, candidate: &Piece) -> (r: bool)
    requires
        h <= pieces@.len(),
        forall|i: int|
            0 <= i < pieces@.len() ==> (#[trigger] pieces@[i])@.sig.len() == candidate@.sig.len(),
    ensures
        r == signatures(pieces@).take(h as int).contains(candidate@.sig),
{
    let ghost firsts = signatures(pieces@).take(h as int);
    let mut k: usize = 0;
    while k < h
        invariant
            k <= h,
            h <= pieces@.len(),
            firsts == signatures(pieces@).take(h as int),
            forall|i: int|
                0 <= i < pieces@.len() ==> (#[trigger] pieces@[i])@.sig.len()
                    == candidate@.sig.len(),
            forall|i: int| 0 <= i < k ==> #[trigger] firsts[i] != candidate@.sig,
        decreases h - k,
    {
        assert(firsts[k as int] == pieces@[k as int]@.sig);
        if candidate.overlaps(&pieces[k]).unwrap() {
            return true;
        }
        k = k + 1;
    }
    false
}

/// Turns piece `h` by every generator in order, and appends each turned
/// piece, at home, whose signature is not among the first `h` pieces.
fn expand(all: &mut Vec<Piece>, h: usize, generators: &Vec<Permutation>, d: usize)
    requires
        h < old(all)@.len(),
        at_home(old(all)@, d as nat),
        forall|i: int|
            0 <= i < generators@.len() ==> (#[trigger] generators@[i]).wf() && generators@[i].deg
                == d,
    ensures
        at_home(final(all)@, d as nat),
        final(all)@.len() >= old(all)@.len(),
        signatures(final(all)@) == signatures(old(all)@) + discoveries(
            signatures(old(all)@),
            h as int,
            tables(generators@),
            generators@.len(),
        ),
{
    let ghost before = signatures(all@);
    let ghost gens = tables(generators@);
    let mut g: usize = 0;
    while g < generators.len()
        invariant
            g <= generators@.len(),
            h < before.len(),
            before.len() <= all@.len(),
            before.len() == old(all)@.len(),
            gens == tables(generators@),
            at_home(all@, d as nat),
            forall|i: int|
                0 <= i < generators@.len() ==> (#[trigger] generators@[i]).wf()
                    && generators@[i].deg == d,
            signatures(all@) == before + discoveries(before, h as int, gens, g as nat),
        decreases generators@.len() - g,
    {
        let ghost so_far = signatures(all@);
        assert(so_far[h as int] == before[h as int]);
        assert(so_far.take(h as int) =~= before.take(h as int));
        let turned = all[h].rotate(&generators[g]).unwrap();
        assert(turned@.sig == rotate_signature(before[h as int], gens[g as int]));
        if !is_finalized(all, h, &turned) {
            all.push(Piece::new(turned.sig));
            assert(signatures(all@) =~= so_far.push(turned@.sig));
        }
        assert(signatures(all@) =~= before + discoveries(before, h as int, gens, (g + 1) as nat));
        g = g + 1;
    }
}

/// What an entry discovers has the entry's degree and is not among the
/// entries before it.
proof fn lemma_discoveries(list: Seq<Seq<u8>>, h: int, gens: Seq<Seq<usize>>, g: nat, d: nat)
    requires
        0 <= h < list.len(),
        all_of_degree(list, d),
        g <= gens.len(),
    ensures
        all_of_degree(discoveries(list, h, gens, g), d),
        forall|j: int|
            0 <= j < discoveries(list, h, gens, g).len() ==> !list.take(h).contains(
                #[trigger] discoveries(list, h, gens, g)[j],
            ),
    decreases g,
{
    if g > 0 {
        lemma_discoveries(list, h, gens, (g - 1) as nat, d);
    }
}

/// Two fresh puzzles from the same base pieces and generators are the same:
/// as many pieces, with the same signatures in the same order.
pub proof fn lemma_generated_unique(
    base: Seq<Seq<u8>>,
    gens: Seq<Seq<usize>>,
    s1: StateView,
    s2: StateView,
)
    requires
        generated_from(base, gens, s1),
        generated_from(base, gens, s2),
    ensures
        s1 == s2,
{
    let n1 = s1.pieces.len();
    let n2 = s2.pieces.len();
    if n1 < n2 {
        assert(orbit_list(base, gens, n1).len() > n1);
    }
    if n2 < n1 {
        assert(orbit_list(base, gens, n2).len() > n2);
    }
}

/// A fresh puzzle is closed under the generators: what a generator makes of
/// the signature of any piece is the signature of a piece.
pub proof fn lemma_generated_closed(
    base: Seq<Seq<u8>>,
    gens: Seq<Seq<usize>>,
    s: StateView,
    i: int,
    g: int,
)
    requires
        generated_from(base, gens, s),
        0 <= i < s.pieces.len(),
        0 <= g < gens.len(),
    ensures
        exists|j: int|
            0 <= j < s.pieces.len() && (#[trigger] s.pieces[j]).sig == rotate_signature(
                s.pieces[i].sig,
                gens[g],
            ),
{
    let whole = orbit_list(base, gens, s.pieces.len());
    lemma_orbit_closed(base, gens, s.pieces.len(), i, g);
    let turned = rotate_signature(whole[i], gens[g]);
    let j = choose|j: int| 0 <= j < whole.len() && whole[j] == turned;
    assert(s.pieces[j].sig == turned);
}

/// A fresh puzzle holds nothing but what the generators make of the base
/// pieces: it begins with the base signatures in their order, and the
/// signature of every later piece is what a generator makes of the signature
/// of a piece before it.
pub proof fn lemma_generated_reached(
    base: Seq<Seq<u8>>,
    gens: Seq<Seq<usize>>,
    s: StateView,
    i: int,
)
    requires
        generated_from(base, gens, s),
        0 <= i < s.pieces.len(),
    ensures
        base.len() <= s.pieces.len(),
        i < base.len() ==> s.pieces[i].sig == base[i],
        i >= base.len() ==> exists|h: int, g: int|
            0 <= h < i && 0 <= g < gens.len() && s.pieces[i].sig == rotate_signature(
                (#[trigger] s.pieces[h]).sig,
                #[trigger] gens[g],
            ),
{
    let n = s.pieces.len();
    let whole = orbit_list(base, gens, n);
    lemma_orbit_list_grows(base, gens, 0, n);
    lemma_orbit_reached(base, gens, n, i);
    if i >= base.len() {
        let (h, g) = choose|h: int, g: int|
            0 <= h < i && 0 <= g < gens.len() && whole[i] == rotate_signature(
                #[trigger] whole[h],
                #[trigger] gens[g],
            );
        assert(s.pieces[h].sig == whole[h]);
    }
}

/// Expanding only appends: the list after `k` steps is how the list after
/// any later step begins.
proof fn lemma_orbit_list_grows(base: Seq<Seq<u8>>, gens: Seq<Seq<usize>>, k: nat, n: nat)
    requires
        k <= n,
    ensures
        orbit_list(base, gens, k).len() <= orbit_list(base, gens, n).len(),
        orbit_list(base, gens, n).take(orbit_list(base, gens, k).len() as int) == orbit_list(
            base,
            gens,
            k,
        ),
    decreases n - k,
{
    let short = orbit_list(base, gens, k);
    if k < n {
        lemma_orbit_list_grows(base, gens, k, (n - 1) as nat);
        let before = orbit_list(base, gens, (n - 1) as nat);
        assert(before.take(short.len() as int) == short);
        assert(orbit_list(base, gens, n).take(short.len() as int) =~= before.take(
            short.len() as int,
        ));
    } else {
        assert(short.take(short.len() as int) =~= short);
    }
}

/// What a generator makes of entry `h` is among the entries before `h` or
/// among what `h` discovers.
proof fn lemma_discoveries_cover(
    list: Seq<Seq<u8>>,
    h: int,
    gens: Seq<Seq<usize>>,
    count: nat,
    g: int,
)
    requires
        0 <= g < count,
    ensures
        list.take(h).contains(rotate_signature(list[h], gens[g])) || discoveries(
            list,
            h,
            gens,
            count,
        ).contains(rotate_signature(list[h], gens[g])),
    decreases count,
{
    let turned = rotate_signature(list[h], gens[g]);
    let earlier = discoveries(list, h, gens, (count - 1) as nat);
    let found = discoveries(list, h, gens, count);
    if g == count - 1 {
        if !list.take(h).contains(turned) {
            assert(found[found.len() - 1] == turned);
        }
    } else {
        lemma_discoveries_cover(list, h, gens, (count - 1) as nat, g);
        if earlier.contains(turned) {
            let w = choose|w: int| 0 <= w < earlier.len() && earlier[w] == turned;
            assert(found[w] == turned);
        }
    }
}

/// What an entry discovers, a generator makes of that entry.
proof fn lemma_discoveries_source(
    list: Seq<Seq<u8>>,
    h: int,
    gens: Seq<Seq<usize>>,
    count: nat,
    j: int,
)
    requires
        0 <= j < discoveries(list, h, gens, count).len(),
    ensures
        exists|g: int|
            0 <= g < count && discoveries(list, h, gens, count)[j] == rotate_signature(
                list[h],
                #[trigger] gens[g],
            ),
    decreases count,
{
    if count > 0 {
        let earlier = discoveries(list, h, gens, (count - 1) as nat);
        if j < earlier.len() {
            lemma_discoveries_source(list, h, gens, (count - 1) as nat, j);
        } else {
            assert(discoveries(list, h, gens, count)[j] == rotate_signature(
                list[h],
                gens[count - 1],
            ));
        }
    }
}

/// The finished list is closed under the generators: what a generator makes
/// of any entry is an entry too.
proof fn lemma_orbit_closed(base: Seq<Seq<u8>>, gens: Seq<Seq<usize>>, n: nat, h: int, g: int)
    requires
        orbit_complete(base, gens, n),
        0 <= h < n,
        0 <= g < gens.len(),
    ensures
        orbit_list(base, gens, n).contains(
            rotate_signature(orbit_list(base, gens, n)[h], gens[g]),
        ),
{
    let whole = orbit_list(base, gens, n);
    let list = orbit_list(base, gens, h as nat);
    let next = orbit_list(base, gens, (h + 1) as nat);
    let found = discoveries(list, h, gens, gens.len());
    assert(list.len() > h);
    lemma_orbit_list_grows(base, gens, h as nat, n);
    lemma_orbit_list_grows(base, gens, (h + 1) as nat, n);
    assert(whole.take(list.len() as int)[h] == whole[h]);
    let turned = rotate_signature(list[h], gens[g]);
    lemma_discoveries_cover(list, h, gens, gens.len(), g);
    if list.take(h).contains(turned) {
        let firsts = list.take(h);
        let w = choose|w: int| 0 <= w < firsts.len() && firsts[w] == turned;
        assert(whole.take(list.len() as int)[w] == whole[w]);
        assert(whole[w] == turned);
    } else {
        let w = choose|w: int| 0 <= w < found.len() && found[w] == turned;
        assert(next[list.len() + w] == turned);
        assert(whole.take(next.len() as int)[list.len() + w] == whole[list.len() + w]);
        assert(whole[list.len() + w] == turned);
    }
}

/// The finished list begins with the base signatures, and every entry after
/// them is what a generator makes of an entry before it.
proof fn lemma_orbit_reached(base: Seq<Seq<u8>>, gens: Seq<Seq<usize>>, n: nat, i: int)
    requires
        forall|k: nat| k < n ==> #[trigger] orbit_list(base, gens, k).len() > k,
        0 <= i < orbit_list(base, gens, n).len(),
    ensures
        i < base.len() ==> orbit_list(base, gens, n)[i] == base[i],
        i >= base.len() ==> exists|h: int, g: int|
            0 <= h < i && 0 <= g < gens.len() && orbit_list(base, gens, n)[i] == rotate_signature(
                #[trigger] orbit_list(base, gens, n)[h],
                #[trigger] gens[g],
            ),
    decreases n,
{
    if n > 0 {
        let h = n - 1;
        let list = orbit_list(base, gens, h as nat);
        let whole = orbit_list(base, gens, n);
        assert(list.len() > h);
        lemma_orbit_list_grows(base, gens, 0, h as nat);
        if i < list.len() {
            lemma_orbit_reached(base, gens, h as nat, i);
            assert(whole[i] == list[i]);
            if i >= base.len() {
                let (h0, g0) = choose|h0: int, g0: int|
                    0 <= h0 < i && 0 <= g0 < gens.len() && list[i] == rotate_signature(
                        #[trigger] list[h0],
                        #[trigger] gens[g0],
                    );
                assert(whole[h0] == list[h0]);
            }
        } else {
            let j = i - list.len();
            lemma_discoveries_source(list, h, gens, gens.len(), j);
            let g0 = choose|g0: int|
                0 <= g0 < gens.len() && discoveries(list, h, gens, gens.len())[j]
                    == rotate_signature(list[h], #[trigger] gens[g0]);
            assert(whole[h] == list[h]);
            assert(whole[i] == rotate_signature(whole[h], gens[g0]));
        }
    }
}

/// A signature read as a number in base 256.
spec fn code(s: Seq<u8>) -> int
    decreases s.len(),
{
    if s.len() == 0 {
        0
    } else {
        256 * code(s.drop_last()) + s.last() as int
    }
}

/// One more than the largest code of a signature of `d` grips.
spec fn code_limit(d: nat) -> int
    decreases d,
{
    if d == 0 {
        1
    } else {
        256 * code_limit((d - 1) as nat)
    }
}

/// The code of a signature is below the limit for its degree.
proof fn lemma_code_range(s: Seq<u8>)
    ensures
        0 <= code(s) < code_limit(s.len()),
    decreases s.len(),
{
    if s.len() > 0 {
        lemma_code_range(s.drop_last());
    }
}

/// Signatures of one degree with one code are the same signature.
proof fn lemma_code_injective(s: Seq<u8>, t: Seq<u8>)
    requires
        s.len() == t.len(),
        code(s) == code(t),
    ensures
        s == t,
    decreases s.len(),
{
    if s.len() > 0 {
        lemma_code_range(s.drop_last());
        lemma_code_range(t.drop_last());
        lemma_code_injective(s.drop_last(), t.drop_last());
        assert(s =~= s.drop_last().push(s.last()));
        assert(t =~= t.drop_last().push(t.last()));
    } else {
        assert(s =~= t);
    }
}

/// The codes of the first `h` entries.
spec fn finalized_codes(list: Seq<Seq<u8>>, h: int) -> Set<int> {
    Set::new(|c: int| exists|k: int| 0 <= k < h && code(#[trigger] list[k]) == c)
}

/// How many signatures of `d` grips are not yet among the first `h` entries.
spec fn unfinalized(list: Seq<Seq<u8>>, h: int, d: nat) -> int {
    code_limit(d) - finalized_codes(list, h).len()
}

/// The places from `h` on whose signature is already among the first `h`
/// entries.
spec fn stale(list: Seq<Seq<u8>>, h: int) -> Set<int> {
    Set::new(|k: int| h <= k < list.len() && list.take(h).contains(list[k]))
}

/// Every entry has `d` grips.
spec fn all_of_degree(list: Seq<Seq<u8>>, d: nat) -> bool {
    forall|k: int| 0 <= k < list.len() ==> (#[trigger] list[k]).len() == d
}

/// There are no more finalized codes than signatures of the degree.
proof fn lemma_finalized_codes_bounded(list: Seq<Seq<u8>>, h: int, d: nat)
    requires
        0 <= h <= list.len(),
        all_of_degree(list, d),
    ensures
        finalized_codes(list, h).finite(),
        finalized_codes(list, h).len() <= code_limit(d),
{
    let all_codes = set_int_range(0, code_limit(d));
    assert forall|c: int| finalized_codes(list, h).contains(c) implies all_codes.contains(c) by {
        let k = choose|k: int| 0 <= k < h && code(#[trigger] list[k]) == c;
        lemma_code_range(list[k]);
    }
    lemma_code_limit_positive(d);
    lemma_int_range(0, code_limit(d));
    lemma_len_subset(finalized_codes(list, h), all_codes);
}

/// There is at least one signature of every degree.
proof fn lemma_code_limit_positive(d: nat)
    ensures
        code_limit(d) > 0,
    decreases d,
{
    if d > 0 {
        lemma_code_limit_positive((d - 1) as nat);
    }
}

/// Only finitely many places are stale.
proof fn lemma_stale_finite(list: Seq<Seq<u8>>, h: int)
    requires
        0 <= h <= list.len(),
    ensures
        stale(list, h).finite(),
{
    lemma_int_range(h, list.len() as int);
    lemma_len_subset(stale(list, h), set_int_range(h, list.len() as int));
}

/// Expanding entry `h` brings the search nearer its end: either a signature
/// that was not finalized before is now, or no new signature is finalized and
/// one stale place fewer is left.
proof fn lemma_expansion_progress(list: Seq<Seq<u8>>, h: int, found: Seq<Seq<u8>>, d: nat)
    requires
        0 <= h < list.len(),
        all_of_degree(list, d),
        all_of_degree(found, d),
        forall|j: int| 0 <= j < found.len() ==> !list.take(h).contains(#[trigger] found[j]),
    ensures
        0 <= unfinalized(list + found, h + 1, d),
        unfinalized(list + found, h + 1, d) < unfinalized(list, h, d) || (unfinalized(
            list + found,
            h + 1,
            d,
        ) == unfinalized(list, h, d) && stale(list + found, h + 1).len() < stale(list, h).len()),
{
    let after = list + found;
    assert(all_of_degree(after, d));
    lemma_finalized_codes_bounded(list, h, d);
    lemma_finalized_codes_bounded(after, h + 1, d);
    lemma_stale_finite(list, h);
    lemma_stale_finite(after, h + 1);
    let old_codes = finalized_codes(list, h);
    let new_codes = finalized_codes(after, h + 1);
    let c = code(list[h]);
    assert(after[h] == list[h]);
    assert forall|x: int| new_codes.contains(x) <==> old_codes.insert(c).contains(x) by {
        if new_codes.contains(x) {
            let k = choose|k: int| 0 <= k < h + 1 && code(#[trigger] after[k]) == x;
            assert(after[k] == list[k]);
        }
        if old_codes.contains(x) {
            let k = choose|k: int| 0 <= k < h && code(#[trigger] list[k]) == x;
            assert(after[k] == list[k]);
        }
    }
    assert(new_codes =~= old_codes.insert(c));
    if list.take(h).contains(list[h]) {
        let before = list.take(h);
        let k0 = choose|k: int| 0 <= k < before.len() && before[k] == list[h];
        assert(before[k0] == list[k0]);
        assert(old_codes.contains(c));
        assert(new_codes =~= old_codes);
        assert forall|k: int| stale(after, h + 1).contains(k) <==> stale(list, h).remove(
            h,
        ).contains(k) by {
            if stale(after, h + 1).contains(k) {
                let prefix = after.take(h + 1);
                let w = choose|w: int| 0 <= w < prefix.len() && prefix[w] == after[k];
                assert(prefix[w] == after[w]);
                let w2 = if w == h {
                    k0
                } else {
                    w
                };
                assert(list.take(h)[w2] == after[k]);
                assert(list.take(h).contains(after[k]));
                if k >= list.len() {
                    assert(after[k] == found[k - list.len()]);
                }
                assert(after[k] == list[k]);
            }
            if stale(list, h).remove(h).contains(k) {
                let prefix = list.take(h);
                let w = choose|w: int| 0 <= w < prefix.len() && prefix[w] == list[k];
                assert(after.take(h + 1)[w] == list[k]);
                assert(after[k] == list[k]);
            }
        }
        assert(stale(after, h + 1) =~= stale(list, h).remove(h));
        assert(stale(list, h).contains(h));
    } else {
        if old_codes.contains(c) {
            let k = choose|k: int| 0 <= k < h && code(#[trigger] list[k]) == c;
            lemma_code_injective(list[k], list[h]);
            assert(list.take(h)[k] == list[h]);
        }
        assert(!old_codes.contains(c));
    }
}

} // verus!
