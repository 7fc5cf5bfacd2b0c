//! Packing of branches into batches.

use vstd::prelude::*;
use vstd::arithmetic::div_mod::lemma_fundamental_div_mod;
use vstd::arithmetic::div_mod::lemma_fundamental_div_mod_converse;
use vstd::slice::slice_subrange;

use crate::algebra::Domain;
use crate::algebra::RingElement;
use crate::algebra::RingModule;
use crate::preprocessing::laws::packed_element;

verus! {

/// The number of vectors of dimension `d` that hold `n` elements.
pub open spec fn vectors_for(n: nat, d: nat) -> nat {
    if n == 0 {
        0
    } else {
        (n - 1) as nat / d + 1
    }
}

/// Element `j` of a branch that is followed by zeros.
pub open spec fn padded<S: RingElement>(branch: Seq<S>, j: int) -> S {
    if j < branch.len() {
        branch[j]
    } else {
        S::spec_zero()
    }
}

/// The branch, cut into vectors of dimension `d`, the last one filled up with
/// zeros.
pub open spec fn packed<S: RingElement>(branch: Seq<S>, d: nat) -> Seq<Seq<S>> {
    Seq::new(
        vectors_for(branch.len(), d),
        |k: int| Seq::new(d, |i: int| padded(branch, k * d + i)),
    )
}

/// The elements of each of a list of vectors.
pub open spec fn contents<S: RingElement, M: RingModule<S>>(vectors: Seq<M>) -> Seq<Seq<S>> {
    Seq::new(vectors.len(), |k: int| vectors[k].elements())
}

/// The elements of every branch of a list.
pub open spec fn branch_elements<S>(branches: Seq<&[S]>) -> Seq<Seq<S>> {
    Seq::new(branches.len(), |b: int| branches[b]@)
}

/// The contents of every branch of a list of packed branches.
pub open spec fn all_contents<D: Domain>(branches: Seq<Vec<D::Batch>>) -> Seq<
    Seq<Seq<D::Scalar>>,
> {
    Seq::new(branches.len(), |b: int| contents::<D::Scalar, D::Batch>(branches[b]@))
}

/// Every branch of a list, packed.
pub open spec fn packed_all<S: RingElement>(branches: Seq<Seq<S>>, d: nat) -> Seq<Seq<Seq<S>>> {
    Seq::new(branches.len(), |b: int| packed(branches[b], d))
}

/// Where `k` vectors do not reach the end of the branch, one more is needed;
/// where they reach it and one less does not, there are enough.
proof fn lemma_vectors_for(n: nat, d: nat, k: nat)
    requires
        d > 0,
    ensures
        k * d < n ==> k < vectors_for(n, d),
        k * d < n <= (k + 1) * d ==> vectors_for(n, d) == k + 1,
{
    if k * d < n {
        let m = (n - 1) as nat;
        let (q, r) = (m / d, m % d);
        lemma_fundamental_div_mod(m as int, d as int);
        assert(k <= q) by (nonlinear_arith)
            requires
                k * d <= m,
                m == d * q + r,
                r < d,
        ;
        if n <= (k + 1) * d {
            assert(q < k + 1) by (nonlinear_arith)
                requires
                    m < (k + 1) * d,
                    m == d * q + r,
                    0 <= r,
            ;
        }
    }
}

/// Every element of every branch stands in its own packed branch, at the place
/// that its number gives.
pub proof fn every_branch_is_packed<S: RingElement>(
    branches: Seq<Seq<S>>,
    d: nat,
    b: int,
    j: nat,
)
    requires
        d > 0,
        0 <= b < branches.len(),
        j < branches[b].len(),
    ensures
        packed_all(branches, d).len() == branches.len(),
        j / d < packed_all(branches, d)[b].len(),
        packed_all(branches, d)[b][(j / d) as int][(j % d) as int] == branches[b][j as int],
{
    packed_element(branches[b], d, j);
}

/// A packed branch has no more vectors than its elements need, each of them of
/// the right dimension, and holds zeros behind its elements.
pub proof fn packing_adds_only_zeros<S: RingElement>(
    branches: Seq<Seq<S>>,
    d: nat,
    b: int,
    q: nat,
    r: nat,
)
    requires
        d > 0,
        0 <= b < branches.len(),
    ensures
        branches[b].len() <= packed_all(branches, d)[b].len() * d < branches[b].len() + d,
        packed_all(branches, d)[b].len() == (branches[b].len() + d - 1) / (d as int),
        q < packed_all(branches, d)[b].len() ==> packed_all(branches, d)[b][q as int].len() == d,
        q < packed_all(branches, d)[b].len() && r < d && branches[b].len() <= q * d + r
            ==> packed_all(branches, d)[b][q as int][r as int] == S::spec_zero(),
{
    let n = branches[b].len();
    let vectors = packed_all(branches, d)[b].len();
    assert(0 * d == 0) by (nonlinear_arith);
    if n > 0 {
        let m = (n - 1) as nat;
        lemma_fundamental_div_mod(m as int, d as int);
        let (last, rest) = (m / d, m % d);
        assert(vectors == last + 1);
        assert(vectors * d == d * last + d) by (nonlinear_arith)
            requires
                vectors == last + 1,
        ;
        lemma_fundamental_div_mod_converse(n + d - 1, d as int, last as int + 1, rest as int);
    } else {
        lemma_fundamental_div_mod_converse(d - 1, d as int, 0, d - 1);
    }
}

/// Lists of branches of the same lengths that are packed alike are alike.
pub proof fn packing_all_loses_nothing<S: RingElement>(
    x: Seq<Seq<S>>,
    y: Seq<Seq<S>>,
    d: nat,
)
    requires
        d > 0,
        x.len() == y.len(),
        forall|b: int| 0 <= b < x.len() ==> (#[trigger] x[b]).len() == y[b].len(),
        packed_all(x, d) == packed_all(y, d),
    ensures
        x == y,
{
    assert forall|b: int| 0 <= b < x.len() implies x[b] == y[b] by {
        assert forall|j: int| 0 <= j < x[b].len() implies x[b][j] == y[b][j] by {
            every_branch_is_packed(x, d, b, j as nat);
            every_branch_is_packed(y, d, b, j as nat);
        }
        assert(x[b] =~= y[b]);
    }
    assert(x =~= y);
}

/// Packs the elements of a branch.
pub fn pack_branch<D: Domain>(branch: &[D::Scalar]) -> (batches: Vec<D::Batch>)
    ensures
        contents::<D::Scalar, D::Batch>(batches@) == packed(
            branch@,
            D::Batch::DIMENSION as nat,
        ),
        batches@.len() == (branch@.len() + D::Batch::DIMENSION - 1) / (D::Batch::DIMENSION as int),
        forall|j: int|
            0 <= j < branch@.len() ==> #[trigger] branch@[j] == batches@[j / (
            D::Batch::DIMENSION as int)].elements()[j % (D::Batch::DIMENSION as int)],
{
    let ghost d = D::Batch::DIMENSION as nat;
    proof {
        D::Batch::dimension();
        assert(0 * d == 0) by (nonlinear_arith);
    }
    let mut batches: Vec<D::Batch> = Vec::new();
    let mut start: usize = 0;
    while start < branch.len()
        invariant
            d == D::Batch::DIMENSION,
            d > 0,
            start <= branch@.len(),
            start < branch@.len() ==> start == batches@.len() * d,
            start == branch@.len() ==> batches@.len() == vectors_for(branch@.len(), d),
            batches@.len() <= vectors_for(branch@.len(), d),
            contents::<D::Scalar, D::Batch>(batches@) == packed(branch@, d).take(
                batches@.len() as int,
            ),
        decreases branch@.len() - start,
    {
        let ghost k = batches@.len();
        proof {
            lemma_vectors_for(branch@.len(), d, k);
            assert((k + 1) * d == k * d + d) by (nonlinear_arith);
        }
        let left: usize = branch.len() - start;
        if left < D::Batch::DIMENSION {
            // copy and pad with zero elements
            let mut elems: Vec<D::Scalar> = Vec::with_capacity(D::Batch::DIMENSION);
            while elems.len() < D::Batch::DIMENSION
                invariant
                    d == D::Batch::DIMENSION,
                    elems.len() <= D::Batch::DIMENSION,
                    start + left == branch@.len() <= usize::MAX,
                    start == k * d,
                    elems@ == Seq::new(d, |i: int| padded(branch@, k * d + i)).take(
                        elems@.len() as int,
                    ),
                decreases D::Batch::DIMENSION - elems.len(),
            {
                let i: usize = elems.len();
                if i < left {
                    elems.push(branch[start + i]);
                } else {
                    elems.push(D::Scalar::zero());
                }
            }
            batches.push(D::Batch::pack(elems.as_slice()));
            start = branch.len();
        } else {
            // no copy
            let chunk = slice_subrange(branch, start, start + D::Batch::DIMENSION);
            batches.push(D::Batch::pack(chunk));
            start = start + D::Batch::DIMENSION;
        }
        proof {
            assert(batches@.last().elements() =~= packed(branch@, d)[k as int]);
            assert(contents::<D::Scalar, D::Batch>(batches@) =~= packed(branch@, d).take(
                (k + 1) as int,
            ));
        }
    }
    proof {
        assert(packed(branch@, d).take(batches@.len() as int) =~= packed(branch@, d));
        packing_adds_only_zeros(seq![branch@], d, 0, 0, 0);
        assert forall|j: int| 0 <= j < branch@.len() implies #[trigger] branch@[j]
            == batches@[j / (d as int)].elements()[j % (d as int)] by {
            packed_element(branch@, d, j as nat);
            assert(contents::<D::Scalar, D::Batch>(batches@)[j / (d as int)] == packed(
                branch@,
                d,
            )[j / (d as int)]);
        }
    }
    batches
}

/// Packs the elements of every branch.
pub fn pack_branches<D: Domain>(branches: &[&[D::Scalar]]) -> (batches: Vec<Vec<D::Batch>>)
    ensures
        all_contents::<D>(batches@) == packed_all(
            branch_elements(branches@),
            D::Batch::DIMENSION as nat,
        ),
        batches@.len() == branches@.len(),
        forall|b: int, j: int|
            0 <= b < branches@.len() && 0 <= j < branches@[b]@.len() ==> #[trigger] branches@[b]@[j]
                == batches@[b]@[j / (D::Batch::DIMENSION as int)].elements()[j % (
            D::Batch::DIMENSION as int)],
        forall|b: int|
            0 <= b < branches@.len() ==> (#[trigger] batches@[b])@.len() == (branches@[b]@.len()
                + D::Batch::DIMENSION - 1) / (D::Batch::DIMENSION as int),
{
    let mut batches: Vec<Vec<D::Batch>> = Vec::with_capacity(branches.len());
    let mut b: usize = 0;
    while b < branches.len()
        invariant
            b <= branches@.len(),
            batches@.len() == b,
            all_contents::<D>(batches@) == packed_all(
                branch_elements(branches@),
                D::Batch::DIMENSION as nat,
            ).take(b as int),
            forall|c: int, j: int|
                0 <= c < b && 0 <= j < branches@[c]@.len() ==> #[trigger] branches@[c]@[j]
                    == batches@[c]@[j / (D::Batch::DIMENSION as int)].elements()[j % (
                D::Batch::DIMENSION as int)],
            forall|c: int|
                0 <= c < b ==> (#[trigger] batches@[c])@.len() == (branches@[c]@.len()
                    + D::Batch::DIMENSION - 1) / (D::Batch::DIMENSION as int),
        decreases branches@.len() - b,
    {
        let ghost before = all_contents::<D>(batches@);
        batches.push(pack_branch::<D>(branches[b]));
        proof {
            assert(all_contents::<D>(batches@) =~= before.push(
                contents::<D::Scalar, D::Batch>(batches@.last()@),
            ));
        }
        b = b + 1;
    }
    batches
}

} // verus!
