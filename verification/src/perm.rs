//! Permutations of the grips: tables of images, their products, inverses and
//! powers, and the group laws that hold of them.

use vstd::prelude::*;
use vstd::set_lib::{lemma_int_range, lemma_subset_equality, set_int_range};
use crate::error::PuzzleError;

verus! {

/// A permutation of the grips `0 .. deg`, held as the table of its images:
/// `perm[i]` is where grip `i` is sent.
#[derive(Debug, PartialEq, Eq)]
pub struct Permutation {
    pub perm: Vec<usize>,
    pub deg: usize,
}

/// `s` lists `s.len()` distinct indices, all below `s.len()`.
pub open spec fn is_permutation(s: Seq<usize>) -> bool {
    &&& s.len() <= usize::MAX
    &&& forall|i: int| 0 <= i < s.len() ==> #[trigger] s[i] < s.len()
    &&& forall|i: int, j: int| 0 <= i < j < s.len() ==> s[i] != s[j]
}

/// The table that sends every index below `n` to itself.
pub open spec fn identity_table(n: nat) -> Seq<usize> {
    Seq::new(n, |i: int| i as usize)
}

/// The table of "first `a`, then `b`": index `i` goes to `b[a[i]]`.
pub open spec fn product_table(a: Seq<usize>, b: Seq<usize>) -> Seq<usize> {
    Seq::new(a.len(), |i: int| b[a[i] as int])
}

/// The table that sends `k` back to the index that `a` sends to `k`.
pub open spec fn inverse_table(a: Seq<usize>) -> Seq<usize> {
    Seq::new(a.len(), |k: int| (choose|i: int| 0 <= i < a.len() && a[i] == k) as usize)
}

/// `a` composed with itself `n` times; no times at all is the identity.
pub open spec fn power_table(a: Seq<usize>, n: nat) -> Seq<usize>
    decreases n,
{
    if n == 0 {
        identity_table(a.len())
    } else {
        product_table(power_table(a, (n - 1) as nat), a)
    }
}

impl View for Permutation {
    type V = Seq<usize>;

    open spec fn view(&self) -> Seq<usize> {
        self.perm@
    }
}

impl Clone for Permutation {
    fn clone(&self) -> (r: Self)
        ensures
            r@ == self@,
            r.deg == self.deg,
    {
        Permutation { perm: self.perm.clone(), deg: self.deg }
    }
}

impl Permutation {
    /// The table is a bijection of `0 .. deg`.
    pub open spec fn wf(&self) -> bool {
        &&& self.deg == self.perm@.len()
        &&& is_permutation(self.perm@)
    }

    /// Wraps a table of images; the degree is its length. Any table is
    /// taken: `is_valid` tells whether it is a permutation.
    pub fn new(perm: Vec<usize>) -> (r: Permutation)
        ensures
            r@ == perm@,
            r.deg == perm@.len(),
            r.wf() == is_permutation(perm@),
    {
        let deg: usize = perm.len();
        Permutation { perm, deg }
    }

    /// Whether the table is a bijection of `0 .. deg`, found out by looking
    /// at it.
    pub fn is_valid(&self) -> (r: bool)
        ensures
            r == self.wf(),
    {
        let n: usize = self.perm.len();
        if self.deg != n {
            return false;
        }
        let mut seen: Vec<bool> = vec![false; n];
        let mut i: usize = 0;
        while i < n
            invariant
                i <= n,
                n == self.perm@.len(),
                seen@.len() == n,
                forall|j: int| 0 <= j < i ==> #[trigger] self.perm@[j] < n,
                forall|j: int, k: int| 0 <= j < k < i ==> self.perm@[j] != self.perm@[k],
                forall|v: int|
                    0 <= v < n ==> (#[trigger] seen@[v] <==> exists|j: int|
                        0 <= j < i && self.perm@[j] == v),
            decreases n - i,
        {
            let image: usize = self.perm[i];
            if image >= n {
                return false;
            }
            if seen[image] {
                let ghost j = choose|j: int| 0 <= j < i && self.perm@[j] == image;
                assert(self.perm@[j] == self.perm@[i as int]);
                return false;
            }
            let ghost before = seen@;
            seen[image] = true;
            assert forall|v: int| 0 <= v < n implies (#[trigger] seen@[v] <==> exists|j: int|
                0 <= j < i + 1 && self.perm@[j] == v) by {
                if v == image {
                    assert(self.perm@[i as int] == v);
                } else {
                    assert(seen@[v] == before[v]);
                    if before[v] {
                        let j = choose|j: int| 0 <= j < i && self.perm@[j] == v;
                        assert(0 <= j < i + 1 && self.perm@[j] == v);
                    }
                }
            }
            i = i + 1;
        }
        true
    }

    /// The permutation of `degree` grips that moves none.
    pub fn identity(degree: usize) -> (r: Permutation)
        ensures
            r.wf(),
            r.deg == degree,
            r@ == identity_table(degree as nat),
    {
        let mut perm: Vec<usize> = Vec::new();
        let mut i: usize = 0;
        while i < degree
            invariant
                i <= degree,
                perm@ == identity_table(i as nat),
            decreases degree - i,
        {
            perm.push(i);
            i = i + 1;
        }
        Permutation { perm, deg: degree }
    }

    /// The permutation that undoes this one.
    pub fn inverse(&self) -> (r: Permutation)
        requires
            self.wf(),
        ensures
            r.wf(),
            r.deg == self.deg,
            r@ == inverse_table(self@),
    {
        let n: usize = self.deg;
        let mut inv: Vec<usize> = vec![0usize; n];
        let mut i: usize = 0;
        while i < n
            invariant
                i <= n,
                n == self.deg,
                self.wf(),
                inv@.len() == n,
                forall|j: int| 0 <= j < i ==> inv@[#[trigger] self.perm@[j] as int] == j,
            decreases n - i,
        {
            let target: usize = self.perm[i];
            inv[target] = i;
            i = i + 1;
        }
        proof {
            lemma_inverse_unique(self@, inv@);
            lemma_inverse_table(self@);
        }
        Permutation { perm: inv, deg: n }
    }

    /// This permutation first, then `other`: grip `i` goes to `other(self(i))`.
    pub fn product(&self, other: &Permutation) -> (r: Result<Permutation, PuzzleError>)
        requires
            self.wf(),
            other.wf(),
        ensures
            match r {
                Ok(p) => self.deg == other.deg && p.wf() && p.deg == self.deg && p@
                    == product_table(self@, other@),
                Err(e) => self.deg != other.deg && e == PuzzleError::DegreeMismatch,
            },
    {
        if self.deg != other.deg {
            return Err(PuzzleError::DegreeMismatch);
        }
        let n: usize = self.deg;
        let mut prod: Vec<usize> = Vec::new();
        let mut i: usize = 0;
        while i < n
            invariant
                i <= n,
                n == self.deg,
                n == other.deg,
                self.wf(),
                other.wf(),
                prod@.len() == i,
                forall|j: int| 0 <= j < i ==> prod@[j] == other.perm@[self.perm@[j] as int],
            decreases n - i,
        {
            prod.push(other.perm[self.perm[i]]);
            i = i + 1;
        }
        proof {
            assert(prod@ =~= product_table(self@, other@));
            lemma_product_table(self@, other@);
        }
        Ok(Permutation { perm: prod, deg: n })
    }

    /// This permutation applied `n` times over, starting from the identity.
    pub fn exp(&self, n: usize) -> (r: Permutation)
        requires
            self.wf(),
        ensures
            r.wf(),
            r.deg == self.deg,
            r@ == power_table(self@, n as nat),
    {
        let d: usize = self.deg;
        let mut e: Vec<usize> = Vec::new();
        let mut i: usize = 0;
        while i < d
            invariant
                i <= d,
                d == self.deg,
                self.wf(),
                e@.len() == i,
                forall|j: int| 0 <= j < i ==> e@[j] == power_table(self@, n as nat)[j],
            decreases d - i,
        {
            let mut at: usize = i;
            let mut k: usize = 0;
            while k < n
                invariant
                    k <= n,
                    i < d,
                    d == self.deg,
                    self.wf(),
                    at < d,
                    at == power_table(self@, k as nat)[i as int],
                decreases n - k,
            {
                proof {
                    lemma_power_table(self@, (k + 1) as nat);
                }
                at = self.perm[at];
                k = k + 1;
            }
            e.push(at);
            i = i + 1;
        }
        proof {
            lemma_power_table(self@, n as nat);
            assert(e@ =~= power_table(self@, n as nat));
        }
        Permutation { perm: e, deg: d }
    }

    /// Where grip `num` is sent.
    pub fn permute(&self, num: usize) -> (r: Result<usize, PuzzleError>)
        ensures
            match r {
                Ok(image) => num < self@.len() && image == self@[num as int],
                Err(e) => num >= self@.len() && e == PuzzleError::IndexOutOfRange,
            },
    {
        if num < self.perm.len() {
            Ok(self.perm[num])
        } else {
            Err(PuzzleError::IndexOutOfRange)
        }
    }
}

/// The images of the first `j` indices under `a`.
spec fn image_of_prefix(a: Seq<usize>, j: int) -> Set<int> {
    Set::new(|k: int| exists|i: int| 0 <= i < j && a[i] as int == k)
}

/// The first `j` indices have `j` images.
proof fn lemma_prefix_image_size(a: Seq<usize>, j: nat)
    requires
        is_permutation(a),
        j <= a.len(),
    ensures
        image_of_prefix(a, j as int).finite(),
        image_of_prefix(a, j as int).len() == j,
    decreases j,
{
    if j == 0 {
        assert(image_of_prefix(a, 0) =~= Set::<int>::empty());
    } else {
        let before = image_of_prefix(a, j - 1);
        let last = a[j - 1] as int;
        lemma_prefix_image_size(a, (j - 1) as nat);
        assert(!before.contains(last));
        assert(image_of_prefix(a, j as int) =~= before.insert(last));
    }
}

/// Distinct indices below `n`, `n` of them, leave none out: every index
/// below `n` is the image of one.
pub proof fn lemma_permutation_onto(a: Seq<usize>, k: int)
    requires
        is_permutation(a),
        0 <= k < a.len(),
    ensures
        exists|i: int| 0 <= i < a.len() && a[i] == k,
{
    let n = a.len() as int;
    let image = image_of_prefix(a, n);
    lemma_prefix_image_size(a, a.len());
    lemma_int_range(0, n);
    assert(image.subset_of(set_int_range(0, n)));
    lemma_subset_equality(image, set_int_range(0, n));
    assert(set_int_range(0, n).contains(k));
    assert(image.contains(k));
}

/// The inverse table is a permutation of the same degree and undoes `a` on
/// both sides.
pub proof fn lemma_inverse_table(a: Seq<usize>)
    requires
        is_permutation(a),
    ensures
        is_permutation(inverse_table(a)),
        inverse_table(a).len() == a.len(),
        forall|i: int| 0 <= i < a.len() ==> inverse_table(a)[#[trigger] a[i] as int] == i,
        forall|k: int| 0 <= k < a.len() ==> a[#[trigger] inverse_table(a)[k] as int] == k,
{
    let inv = inverse_table(a);
    assert forall|k: int| 0 <= k < a.len() implies 0 <= inv[k] < a.len() && a[#[trigger] inv[k]
        as int] == k by {
        lemma_permutation_onto(a, k);
    }
    assert forall|i: int| 0 <= i < a.len() implies inv[#[trigger] a[i] as int] == i by {
        let k = a[i] as int;
        let w = inv[k] as int;
        assert(a[w] == a[i]);
        if w < i {
            assert(a[w] != a[i]);
        } else if i < w {
            assert(a[i] != a[w]);
        }
    }
    assert forall|k: int, l: int| 0 <= k < l < inv.len() implies inv[k] != inv[l] by {
        assert(a[inv[k] as int] == k);
        assert(a[inv[l] as int] == l);
    }
}

/// Only the inverse table sends every image back to its index.
pub proof fn lemma_inverse_unique(a: Seq<usize>, b: Seq<usize>)
    requires
        is_permutation(a),
        b.len() == a.len(),
        forall|i: int| 0 <= i < a.len() ==> b[#[trigger] a[i] as int] == i,
    ensures
        b == inverse_table(a),
{
    lemma_inverse_table(a);
    let inv = inverse_table(a);
    assert forall|k: int| 0 <= k < a.len() implies b[k] == inv[k] by {
        let w = inv[k] as int;
        assert(a[w] == k);
        assert(b[a[w] as int] == w);
    }
    assert(b =~= inv);
}

/// The product of two permutations of one degree is a permutation of it.
pub proof fn lemma_product_table(a: Seq<usize>, b: Seq<usize>)
    requires
        is_permutation(a),
        is_permutation(b),
        a.len() == b.len(),
    ensures
        is_permutation(product_table(a, b)),
        product_table(a, b).len() == a.len(),
{
    let p = product_table(a, b);
    assert forall|i: int, j: int| 0 <= i < j < p.len() implies p[i] != p[j] by {
        let x = a[i] as int;
        let y = a[j] as int;
        assert(x != y);
        if x < y {
            assert(b[x] != b[y]);
        } else {
            assert(b[y] != b[x]);
        }
    }
}

/// The identity table is a permutation.
pub proof fn lemma_identity_table(n: nat)
    requires
        n <= usize::MAX,
    ensures
        is_permutation(identity_table(n)),
        identity_table(n).len() == n,
{
}

/// The identity is neutral on both sides of a product.
pub proof fn lemma_product_identity(a: Seq<usize>)
    requires
        is_permutation(a),
    ensures
        product_table(a, identity_table(a.len())) == a,
        product_table(identity_table(a.len()), a) == a,
{
    assert(product_table(a, identity_table(a.len())) =~= a);
    assert(product_table(identity_table(a.len()), a) =~= a);
}

/// A permutation and its inverse cancel on both sides.
pub proof fn lemma_product_inverse(a: Seq<usize>)
    requires
        is_permutation(a),
    ensures
        product_table(a, inverse_table(a)) == identity_table(a.len()),
        product_table(inverse_table(a), a) == identity_table(a.len()),
{
    lemma_inverse_table(a);
    assert(product_table(a, inverse_table(a)) =~= identity_table(a.len()));
    assert(product_table(inverse_table(a), a) =~= identity_table(a.len()));
}

/// Products may be bracketed either way.
pub proof fn lemma_product_associative(a: Seq<usize>, b: Seq<usize>, c: Seq<usize>)
    requires
        is_permutation(a),
        is_permutation(b),
        a.len() == b.len(),
    ensures
        product_table(product_table(a, b), c) == product_table(a, product_table(b, c)),
{
    assert(product_table(product_table(a, b), c) =~= product_table(a, product_table(b, c)));
}

/// Every power of a permutation is a permutation of the same degree.
pub proof fn lemma_power_table(a: Seq<usize>, n: nat)
    requires
        is_permutation(a),
    ensures
        is_permutation(power_table(a, n)),
        power_table(a, n).len() == a.len(),
    decreases n,
{
    if n > 0 {
        lemma_power_table(a, (n - 1) as nat);
        lemma_product_table(power_table(a, (n - 1) as nat), a);
    }
}

} // verus!
