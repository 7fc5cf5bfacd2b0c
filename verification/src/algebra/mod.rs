//! Rings, modules over them, and the domains of the computation.

use vstd::prelude::*;

use crate::crypto::PRG;

pub mod gf2;

verus! {

/// An element of a ring.
pub trait RingElement: Copy {
    spec fn spec_zero() -> Self;

    spec fn spec_plus(self, other: Self) -> Self;

    spec fn spec_minus(self, other: Self) -> Self;

    spec fn spec_times(self, other: Self) -> Self;

    /// The byte that stands for the element in a hashed message.
    spec fn spec_byte(self) -> u8;

    /// Subtraction undoes addition.
    proof fn minus_undoes_plus(a: Self, b: Self)
        ensures
            b.spec_plus(a.spec_minus(b)) == a,
    ;

    /// The order of two summands does not matter.
    proof fn plus_commutes(a: Self, b: Self)
        ensures
            a.spec_plus(b) == b.spec_plus(a),
    ;

    /// The grouping of three summands does not matter.
    proof fn plus_associates(a: Self, b: Self, c: Self)
        ensures
            a.spec_plus(b).spec_plus(c) == a.spec_plus(b.spec_plus(c)),
    ;

    /// Adding zero changes nothing.
    proof fn plus_zero(a: Self)
        ensures
            a.spec_plus(Self::spec_zero()) == a,
    ;

    /// The order of two factors does not matter.
    proof fn times_commutes(a: Self, b: Self)
        ensures
            a.spec_times(b) == b.spec_times(a),
    ;

    /// The grouping of three factors does not matter.
    proof fn times_associates(a: Self, b: Self, c: Self)
        ensures
            a.spec_times(b).spec_times(c) == a.spec_times(b.spec_times(c)),
    ;

    /// A sum is multiplied summand by summand.
    proof fn times_distributes(a: Self, b: Self, c: Self)
        ensures
            a.spec_plus(b).spec_times(c) == a.spec_times(c).spec_plus(b.spec_times(c)),
    ;

    /// Different elements are hashed as different bytes.
    proof fn byte_determines(a: Self, b: Self)
        requires
            a.spec_byte() == b.spec_byte(),
        ensures
            a == b,
    ;

    fn zero() -> (r: Self)
        ensures
            r == Self::spec_zero(),
    ;

    fn plus(self, other: Self) -> (r: Self)
        ensures
            r == self.spec_plus(other),
    ;

    fn minus(self, other: Self) -> (r: Self)
        ensures
            r == self.spec_minus(other),
    ;

    fn times(self, other: Self) -> (r: Self)
        ensures
            r == self.spec_times(other),
    ;

    fn byte(self) -> (r: u8)
        ensures
            r == self.spec_byte(),
    ;
}

/// A vector of a fixed number of ring elements.
pub trait RingModule<S: RingElement>: Copy {
    /// The number of elements in a vector.
    const DIMENSION: usize;

    /// The elements of the vector.
    spec fn elements(self) -> Seq<S>;

    /// A vector is not empty.
    proof fn dimension()
        ensures
            Self::DIMENSION > 0,
    ;

    /// A vector has as many elements as its dimension says.
    proof fn length(self)
        ensures
            self.elements().len() == Self::DIMENSION,
    ;

    /// A vector is determined by its elements.
    proof fn determined(a: Self, b: Self)
        requires
            a.elements() == b.elements(),
        ensures
            a == b,
    ;

    fn zero() -> (r: Self)
        ensures
            r.elements() == zeros::<S>(Self::DIMENSION as nat),
    ;

    fn get(&self, i: usize) -> (r: S)
        requires
            i < Self::DIMENSION,
        ensures
            r == self.elements()[i as int],
    ;

    fn pack(elems: &[S]) -> (r: Self)
        requires
            elems@.len() == Self::DIMENSION,
        ensures
            r.elements() == elems@,
    ;
}

/// A value that can be read from a generator.
pub trait Samplable: Sized {
    /// The value that the generator gives.
    spec fn sampled(prg: PRG) -> Self;

    /// The generator after it gave the value.
    spec fn sampled_rest(prg: PRG) -> PRG;

    fn gen(prg: &mut PRG) -> (r: Self)
        ensures
            r == Self::sampled(*old(prg)),
            *final(prg) == Self::sampled_rest(*old(prg)),
    ;
}

/// A ring, the vectors that hold it, and the parameters of the proof.
pub trait Domain: Sized {
    /// Number of players that are simulated.
    const PLAYERS: usize;

    /// Number of preprocessing executions.
    const PREPROCESSING_REPETITIONS: usize;

    /// Number of executions that stay hidden for the online phase.
    const ONLINE_REPETITIONS: usize;

    type Scalar: RingElement;

    /// Consecutive elements of one player.
    type Batch: RingModule<Self::Scalar> + Samplable;

    /// One element of every player.
    type Sharing: RingModule<Self::Scalar>;

    /// The parameters fit together.
    proof fn parameters()
        ensures
            Self::ONLINE_REPETITIONS <= Self::PREPROCESSING_REPETITIONS,
            Self::Sharing::DIMENSION == Self::PLAYERS,
    ;

    /// Turns one batch of every player into one sharing for every position of
    /// the batches.
    fn convert(dst: &mut [Self::Sharing], src: &[Self::Batch])
        requires
            old(dst)@.len() == Self::Batch::DIMENSION,
            src@.len() == Self::PLAYERS,
        ensures
            transposes::<Self::Scalar, Self::Batch, Self::Sharing>(final(dst)@, src@),
            forall|i: int, p: int|
                0 <= i < Self::Batch::DIMENSION && 0 <= p < Self::PLAYERS ==> (
                #[trigger] final(dst)@[i]).elements()[p] == (#[trigger] src@[p]).elements()[i],
    ;
}

/// A vector of zeros.
pub open spec fn zeros<S: RingElement>(n: nat) -> Seq<S> {
    Seq::new(n, |i: int| S::spec_zero())
}

/// The sum of the elements of a vector.
pub open spec fn sum<S: RingElement>(elements: Seq<S>) -> S
    decreases elements.len(),
{
    if elements.len() == 0 {
        S::spec_zero()
    } else {
        sum(elements.drop_last()).spec_plus(elements.last())
    }
}

/// What is added to both sides of an equation can be taken away again.
pub proof fn plus_cancels<S: RingElement>(a: S, b: S, c: S)
    requires
        a.spec_plus(c) == b.spec_plus(c),
    ensures
        a == b,
{
    let inverse = S::spec_zero().spec_minus(c);
    S::minus_undoes_plus(S::spec_zero(), c);
    S::plus_associates(a, c, inverse);
    S::plus_associates(b, c, inverse);
    S::plus_zero(a);
    S::plus_zero(b);
}

/// Zero times anything is zero.
proof fn lemma_zero_times<S: RingElement>(a: S)
    ensures
        S::spec_zero().spec_times(a) == S::spec_zero(),
{
    let zero = S::spec_zero();
    let product = zero.spec_times(a);
    S::plus_zero(zero);
    S::times_distributes(zero, zero, a);
    S::plus_zero(product);
    S::plus_commutes(product, zero);
    plus_cancels(product, zero, product);
}

/// The sum of zeros is zero.
pub proof fn sum_of_zeros<S: RingElement>(n: nat)
    ensures
        sum(zeros::<S>(n)) == S::spec_zero(),
    decreases n,
{
    if n > 0 {
        let fewer = (n - 1) as nat;
        sum_of_zeros::<S>(fewer);
        assert(zeros::<S>(n).drop_last() =~= zeros::<S>(fewer));
        S::plus_zero(S::spec_zero());
    }
}

/// Every element counts in the sum: what is added to one of them is added to
/// the sum.
pub proof fn every_element_counts<S: RingElement>(elements: Seq<S>, i: int, x: S)
    requires
        0 <= i < elements.len(),
    ensures
        sum(elements.update(i, elements[i].spec_plus(x))) == sum(elements).spec_plus(x),
    decreases elements.len(),
{
    let changed = elements.update(i, elements[i].spec_plus(x));
    let (front, last) = (elements.drop_last(), elements.last());
    if i == elements.len() - 1 {
        assert(changed.drop_last() =~= front);
        S::plus_associates(sum(front), last, x);
    } else {
        every_element_counts(front, i, x);
        assert(changed.drop_last() =~= front.update(i, front[i].spec_plus(x)));
        S::plus_associates(sum(front), x, last);
        S::plus_commutes(x, last);
        S::plus_associates(sum(front), last, x);
    }
}

/// The elements of a sum of vectors sum to the sum of what the vectors sum to.
pub proof fn sum_of_vector_sum<S: RingElement>(a: Seq<S>, b: Seq<S>)
    requires
        a.len() == b.len(),
    ensures
        sum(vector_sum(a, b)) == sum(a).spec_plus(sum(b)),
    decreases a.len(),
{
    if a.len() == 0 {
        S::plus_zero(S::spec_zero());
    } else {
        let (x, y) = (sum(a.drop_last()), sum(b.drop_last()));
        let (u, v) = (a.last(), b.last());
        sum_of_vector_sum(a.drop_last(), b.drop_last());
        assert(vector_sum(a, b).drop_last() =~= vector_sum(a.drop_last(), b.drop_last()));
        S::plus_associates(x, y, u.spec_plus(v));
        S::plus_associates(y, u, v);
        S::plus_commutes(y, u);
        S::plus_associates(u, y, v);
        S::plus_associates(x, u, y.spec_plus(v));
    }
}

/// The elements of a multiple of a vector sum to the multiple of what the
/// vector sums to.
pub proof fn sum_of_multiple<S: RingElement>(a: Seq<S>, s: S)
    ensures
        sum(multiple(a, s)) == sum(a).spec_times(s),
    decreases a.len(),
{
    if a.len() == 0 {
        lemma_zero_times(s);
    } else {
        sum_of_multiple(a.drop_last(), s);
        assert(multiple(a, s).drop_last() =~= multiple(a.drop_last(), s));
        S::times_distributes(sum(a.drop_last()), a.last(), s);
    }
}

/// The element of player `p` at position `i`, over all players.
pub open spec fn column<S: RingElement, B: RingModule<S>>(batches: Seq<B>, i: int) -> Seq<S> {
    Seq::new(batches.len(), |p: int| batches[p].elements()[i])
}

/// The sharings hold the elements of the batches, position by position.
pub open spec fn transposes<S: RingElement, B: RingModule<S>, M: RingModule<S>>(
    sharings: Seq<M>,
    batches: Seq<B>,
) -> bool {
    &&& sharings.len() == B::DIMENSION
    &&& forall|i: int|
        0 <= i < sharings.len() ==> (#[trigger] sharings[i]).elements() == column::<S, B>(
            batches,
            i,
        )
}

/// Computes the sum of the elements of a vector.
pub fn reconstruct<S: RingElement, M: RingModule<S>>(m: &M) -> (r: S)
    ensures
        r == sum(m.elements()),
{
    proof {
        m.length();
    }
    let mut total: S = S::zero();
    let mut i: usize = 0;
    while i < M::DIMENSION
        invariant
            i <= M::DIMENSION,
            m.elements().len() == M::DIMENSION,
            total == sum(m.elements().take(i as int)),
        decreases M::DIMENSION - i,
    {
        proof {
            assert(m.elements().take(i + 1).drop_last() =~= m.elements().take(i as int));
        }
        total = total.plus(m.get(i));
        i = i + 1;
    }
    proof {
        assert(m.elements().take(i as int) =~= m.elements());
    }
    total
}

/// The sum of two vectors, element by element.
pub open spec fn vector_sum<S: RingElement>(a: Seq<S>, b: Seq<S>) -> Seq<S> {
    Seq::new(a.len(), |i: int| a[i].spec_plus(b[i]))
}

/// The multiple of a vector.
pub open spec fn multiple<S: RingElement>(a: Seq<S>, s: S) -> Seq<S> {
    Seq::new(a.len(), |i: int| a[i].spec_times(s))
}

/// Adds two vectors.
pub fn add_vectors<S: RingElement, M: RingModule<S>>(a: &M, b: &M) -> (r: M)
    ensures
        r.elements() == vector_sum(a.elements(), b.elements()),
        forall|i: int|
            0 <= i < M::DIMENSION ==> #[trigger] r.elements()[i] == a.elements()[i].spec_plus(
                b.elements()[i],
            ),
{
    proof {
        a.length();
        b.length();
    }
    let mut elems: Vec<S> = Vec::new();
    let mut i: usize = 0;
    while i < M::DIMENSION
        invariant
            i <= M::DIMENSION,
            a.elements().len() == M::DIMENSION,
            b.elements().len() == M::DIMENSION,
            elems@ == vector_sum(a.elements(), b.elements()).take(i as int),
        decreases M::DIMENSION - i,
    {
        elems.push(a.get(i).plus(b.get(i)));
        i = i + 1;
    }
    M::pack(elems.as_slice())
}

/// Multiplies a vector by a scalar.
pub fn scale_vector<S: RingElement, M: RingModule<S>>(a: &M, s: S) -> (r: M)
    ensures
        r.elements() == multiple(a.elements(), s),
        forall|i: int|
            0 <= i < M::DIMENSION ==> #[trigger] r.elements()[i] == a.elements()[i].spec_times(s),
{
    proof {
        a.length();
    }
    let mut elems: Vec<S> = Vec::new();
    let mut i: usize = 0;
    while i < M::DIMENSION
        invariant
            i <= M::DIMENSION,
            a.elements().len() == M::DIMENSION,
            elems@ == multiple(a.elements(), s).take(i as int),
        decreases M::DIMENSION - i,
    {
        elems.push(a.get(i).times(s));
        i = i + 1;
    }
    M::pack(elems.as_slice())
}

} // verus!
