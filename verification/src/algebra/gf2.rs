//! The field of two elements, with bits packed into machine words.

use vstd::prelude::*;
use vstd::arithmetic::power2::pow2;
use vstd::bits::lemma_u64_shr_is_div;
use vstd::bytes::spec_u64_from_le_bytes;
use vstd::bytes::u64_from_le_bytes;

use crate::algebra::column;
use crate::algebra::zeros;
use crate::algebra::Domain;
use crate::algebra::RingElement;
use crate::algebra::RingModule;
use crate::algebra::Samplable;
use crate::crypto::PRG;

verus! {

/// A bit.
#[derive(Clone, Copy, Debug, PartialEq, Eq)]
pub struct BitScalar(pub bool);

/// 64 bits of one player.
#[derive(Clone, Copy, Debug, PartialEq, Eq)]
pub struct BitBatch(pub u64);

/// One bit of each of 8 players.
#[derive(Clone, Copy, Debug, PartialEq, Eq)]
pub struct BitSharing8(pub u8);

/// Proofs over bits with 8 players.
#[derive(Clone, Copy, Debug, PartialEq, Eq)]
pub struct GF2P8;

impl RingElement for BitScalar {
    open spec fn spec_zero() -> Self {
        BitScalar(false)
    }

    open spec fn spec_plus(self, other: Self) -> Self {
        BitScalar(self.0 != other.0)
    }

    open spec fn spec_minus(self, other: Self) -> Self {
        BitScalar(self.0 != other.0)
    }

    open spec fn spec_times(self, other: Self) -> Self {
        BitScalar(self.0 && other.0)
    }

    open spec fn spec_byte(self) -> u8 {
        if self.0 {
            1
        } else {
            0
        }
    }

    proof fn minus_undoes_plus(a: Self, b: Self) {
    }

    proof fn plus_commutes(a: Self, b: Self) {
    }

    proof fn plus_associates(a: Self, b: Self, c: Self) {
    }

    proof fn plus_zero(a: Self) {
    }

    proof fn times_commutes(a: Self, b: Self) {
    }

    proof fn times_associates(a: Self, b: Self, c: Self) {
    }

    proof fn times_distributes(a: Self, b: Self, c: Self) {
    }

    proof fn byte_determines(a: Self, b: Self) {
    }

    fn zero() -> Self {
        BitScalar(false)
    }

    fn plus(self, other: Self) -> Self {
        BitScalar(self.0 != other.0)
    }

    fn minus(self, other: Self) -> Self {
        BitScalar(self.0 != other.0)
    }

    fn times(self, other: Self) -> Self {
        BitScalar(self.0 && other.0)
    }

    fn byte(self) -> u8 {
        if self.0 {
            1
        } else {
            0
        }
    }
}

/// Bits are added and multiplied as numbers modulo 2, and hashed as the numbers
/// 0 and 1.
pub proof fn bits_count_modulo_two(a: BitScalar, b: BitScalar)
    ensures
        a.spec_plus(b).spec_byte() == (a.spec_byte() + b.spec_byte()) % 2,
        a.spec_minus(b).spec_byte() == (2 + a.spec_byte() - b.spec_byte()) % 2,
        a.spec_times(b).spec_byte() == a.spec_byte() * b.spec_byte(),
        BitScalar::spec_zero().spec_byte() == 0,
        a.spec_byte() == 1 <==> a.0,
{
}

/// Bit `i` of a word.
pub open spec fn bit(word: u64, i: u64) -> bool {
    (word >> i) & 1 == 1
}

/// The first `n` bits of a word.
pub open spec fn bits(word: u64, n: nat) -> Seq<BitScalar> {
    Seq::new(n, |i: int| BitScalar(bit(word, i as u64)))
}

proof fn lemma_set_bit(word: u64, i: u64, j: u64)
    by (bit_vector)
    requires
        i < 64,
        j < 64,
    ensures
        bit(word | (1u64 << i), j) == (i == j || bit(word, j)),
        !bit(0, j),
{
}

proof fn lemma_low_bits(a: u64, b: u64, n: u64)
    by (bit_vector)
    requires
        n < 64,
        a << (64 - n) as u64 == b << (64 - n) as u64 || n == 0,
        bit(a, n) == bit(b, n),
    ensures
        a << (63 - n) as u64 == b << (63 - n) as u64,
{
}

/// Two words with the same bits below `n` agree below `n`.
proof fn lemma_same_bits(a: u64, b: u64, n: u64)
    requires
        1 <= n <= 64,
        forall|i: u64| i < n ==> #[trigger] bit(a, i) == bit(b, i),
    ensures
        a << (64 - n) as u64 == b << (64 - n) as u64,
    decreases n,
{
    if n > 1 {
        lemma_same_bits(a, b, (n - 1) as u64);
    }
    lemma_low_bits(a, b, (n - 1) as u64);
}

/// Packs bits into a word, the first into the lowest position.
fn pack_bits(elems: &[BitScalar]) -> (word: u64)
    requires
        elems@.len() <= 64,
    ensures
        bits(word, elems@.len()) == elems@,
        forall|j: u64| elems@.len() <= j < 64 ==> !#[trigger] bit(word, j),
{
    let mut word: u64 = 0;
    let mut i: u64 = 0;
    proof {
        assert forall|j: u64| j < 64 implies !#[trigger] bit(word, j) by {
            lemma_set_bit(0, 0, j);
        }
    }
    while (i as usize) < elems.len()
        invariant
            i <= elems@.len() <= 64,
            forall|j: u64| j < i ==> #[trigger] bit(word, j) == elems@[j as int].0,
            forall|j: u64| i <= j < 64 ==> !#[trigger] bit(word, j),
        decreases elems@.len() - i,
    {
        if elems[i as usize].0 {
            proof {
                assert forall|j: u64| j < 64 implies #[trigger] bit(word | (1u64 << i), j) == (i == j
                    || bit(word, j)) by {
                    lemma_set_bit(word, i, j);
                }
            }
            word = word | (1u64 << i);
        }
        i = i + 1;
    }
    word
}

impl RingModule<BitScalar> for BitBatch {
    const DIMENSION: usize = 64;

    open spec fn elements(self) -> Seq<BitScalar> {
        bits(self.0, 64)
    }

    proof fn dimension() {
    }

    proof fn length(self) {
    }

    proof fn determined(a: Self, b: Self) {
        let (x, y) = (a.0, b.0);
        assert forall|i: u64| i < 64 implies #[trigger] bit(x, i) == bit(y, i) by {
            assert(bits(x, 64)[i as int].0 == bit(x, i));
            assert(bits(y, 64)[i as int].0 == bit(y, i));
        }
        lemma_same_bits(x, y, 64);
        assert(x == y) by (bit_vector)
            requires
                x << 0u64 == y << 0u64,
        ;
    }

    fn zero() -> (r: Self) {
        proof {
            assert forall|j: u64| j < 64 implies !#[trigger] bit(0, j) by {
                lemma_set_bit(0, 0, j);
            }
            assert(BitBatch(0).elements() =~= zeros::<BitScalar>(64));
        }
        BitBatch(0)
    }

    fn get(&self, i: usize) -> BitScalar {
        BitScalar((self.0 >> (i as u64)) & 1 == 1)
    }

    fn pack(elems: &[BitScalar]) -> Self {
        BitBatch(pack_bits(elems))
    }
}

impl Samplable for BitBatch {
    open spec fn sampled(prg: PRG) -> Self {
        BitBatch(spec_u64_from_le_bytes(prg.block()@.subrange(0, 8)))
    }

    open spec fn sampled_rest(prg: PRG) -> PRG {
        prg.rest()
    }

    fn gen(prg: &mut PRG) -> Self {
        let block = prg.next_block();
        let word = vstd::slice::slice_subrange(block.as_slice(), 0, 8);
        BitBatch(u64_from_le_bytes(word))
    }
}

impl RingModule<BitScalar> for BitSharing8 {
    const DIMENSION: usize = 8;

    open spec fn elements(self) -> Seq<BitScalar> {
        bits(self.0 as u64, 8)
    }

    proof fn dimension() {
    }

    proof fn length(self) {
    }

    proof fn determined(a: Self, b: Self) {
        let (x, y) = (a.0, b.0);
        let (word_x, word_y) = (x as u64, y as u64);
        assert forall|i: u64| i < 8 implies #[trigger] bit(word_x, i) == bit(word_y, i) by {
            assert(bits(word_x, 8)[i as int].0 == bit(word_x, i));
            assert(bits(word_y, 8)[i as int].0 == bit(word_y, i));
        }
        lemma_same_bits(word_x, word_y, 8);
        assert(x == y) by (bit_vector)
            requires
                (x as u64) << 56u64 == (y as u64) << 56u64,
        ;
    }

    fn zero() -> (r: Self) {
        proof {
            assert forall|j: u64| j < 64 implies !#[trigger] bit(0, j) by {
                lemma_set_bit(0, 0, j);
            }
            assert(BitSharing8(0).elements() =~= zeros::<BitScalar>(8));
        }
        BitSharing8(0)
    }

    fn get(&self, i: usize) -> BitScalar {
        BitScalar(((self.0 as u64) >> (i as u64)) & 1 == 1)
    }

    fn pack(elems: &[BitScalar]) -> (r: Self) {
        let word: u64 = pack_bits(elems);
        let r = BitSharing8((word & 0xff) as u8);
        proof {
            let low = r.0 as u64;
            assert forall|j: u64| j < 8 implies #[trigger] bit(low, j) == bit(word, j) by {
                assert(bit(low, j) == bit(word, j)) by (bit_vector)
                    requires
                        j < 8,
                        low == ((word & 0xff) as u8) as u64,
                ;
            }
            assert(r.elements() =~= bits(word, 8));
        }
        r
    }
}

impl Domain for GF2P8 {
    const PLAYERS: usize = 8;

    const PREPROCESSING_REPETITIONS: usize = 252;

    const ONLINE_REPETITIONS: usize = 44;

    type Scalar = BitScalar;

    type Batch = BitBatch;

    type Sharing = BitSharing8;

    proof fn parameters() {
    }

    fn convert(dst: &mut [BitSharing8], src: &[BitBatch]) {
        let mut i: usize = 0;
        while i < 64
            invariant
                i <= 64,
                dst@.len() == 64,
                src@.len() == 8,
                forall|k: int|
                    0 <= k < i ==> (#[trigger] dst@[k]).elements() == column::<BitScalar, BitBatch>(src@, k),
            decreases 64 - i,
        {
            let mut elems: Vec<BitScalar> = Vec::new();
            let mut p: usize = 0;
            while p < 8
                invariant
                    p <= 8,
                    i < 64,
                    src@.len() == 8,
                    elems@ == column::<BitScalar, BitBatch>(src@, i as int).take(p as int),
                decreases 8 - p,
            {
                elems.push(src[p].get(i));
                p = p + 1;
            }
            dst[i] = BitSharing8::pack(elems.as_slice());
            i = i + 1;
        }
    }
}

/// The elements of a word are its binary digits, the lowest first.
pub proof fn words_hold_binary_digits(batch: BitBatch, sharing: BitSharing8, i: nat)
    ensures
        i < 64 ==> batch.elements()[i as int].0 == ((batch.0 as nat / pow2(i)) % 2 == 1),
        i < 8 ==> sharing.elements()[i as int].0 == ((sharing.0 as nat / pow2(i)) % 2 == 1),
{
    if i < 64 {
        lemma_binary_digit(batch.0, i as u64);
        lemma_binary_digit(sharing.0 as u64, i as u64);
    }
}

proof fn lemma_binary_digit(word: u64, i: u64)
    requires
        i < 64,
    ensures
        bit(word, i) == ((word as nat / pow2(i as nat)) % 2 == 1),
{
    lemma_u64_shr_is_div(word, i);
    let shifted = word >> i;
    assert(shifted & 1 == shifted % 2) by (bit_vector);
}

impl GF2P8 {
    /// The parameters of the domain.
    pub proof fn values()
        ensures
            GF2P8::PLAYERS == 8,
            GF2P8::PREPROCESSING_REPETITIONS == 252,
            GF2P8::ONLINE_REPETITIONS == 44,
            <BitBatch as RingModule<BitScalar>>::DIMENSION == 64,
            <BitSharing8 as RingModule<BitScalar>>::DIMENSION == 8,
    {
    }
}

} // verus!
