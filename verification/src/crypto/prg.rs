//! A pseudo-random generator in counter mode.

use vstd::prelude::*;
use vstd::bytes::spec_u128_from_le_bytes;
use vstd::bytes::spec_u64_to_le_bytes;
use vstd::bytes::u128_from_le_bytes;
use vstd::bytes::u64_to_le_bytes;

use crate::crypto::keyed_digest;
use crate::crypto::keyed_hash;
use crate::crypto::HASH_SIZE;
use crate::crypto::KEY_SIZE;

verus! {

/// Expands a key into a stream of blocks: the block at each position is the
/// keyed hash of the position. The position wraps around at its maximum.
pub struct PRG {
    pub key: [u8; KEY_SIZE],
    pub counter: u64,
}

impl PRG {
    /// The generator of a key, before its first block.
    pub open spec fn from_key(key: [u8; KEY_SIZE]) -> PRG {
        PRG { key, counter: 0 }
    }

    /// The next block of the stream.
    pub open spec fn block(self) -> [u8; HASH_SIZE] {
        keyed_digest(self.key@, spec_u64_to_le_bytes(self.counter))
    }

    /// The generator behind its next block.
    pub open spec fn rest(self) -> PRG {
        PRG { key: self.key, counter: ((self.counter + 1) % 0x1_0000_0000_0000_0000) as u64 }
    }

    /// The generator behind its next `n` blocks.
    pub open spec fn skip(self, n: nat) -> PRG
        decreases n,
    {
        if n == 0 {
            self
        } else {
            self.skip((n - 1) as nat).rest()
        }
    }

    /// A number below `bound`, read from the next block.
    pub open spec fn number_below(self, bound: nat) -> nat {
        (spec_u128_from_le_bytes(self.block()@.subrange(0, 16)) as nat) % bound
    }

    /// The generator of a key stands behind `n` blocks where its counter says
    /// so.
    proof fn lemma_skip_counts(key: [u8; KEY_SIZE], n: nat)
        ensures
            PRG::from_key(key).skip(n) == (PRG {
                key,
                counter: (n % 0x1_0000_0000_0000_0000) as u64,
            }),
        decreases n,
    {
        if n > 0 {
            PRG::lemma_skip_counts(key, (n - 1) as nat);
        }
    }

    /// Block number `n` of a key is the keyed hash of the number `n`, written in
    /// 8 bytes with the lowest first.
    pub proof fn stream_of_key(key: [u8; KEY_SIZE], n: nat)
        ensures
            PRG::from_key(key).skip(n).block() == keyed_digest(
                key@,
                spec_u64_to_le_bytes((n % 0x1_0000_0000_0000_0000) as u64),
            ),
            PRG::from_key(key).skip(n).key == key,
    {
        PRG::lemma_skip_counts(key, n);
    }

    /// The stream does not hash one input twice before its counter wraps
    /// around.
    pub proof fn stream_inputs_differ(n: u64, m: u64)
        requires
            n != m,
        ensures
            spec_u64_to_le_bytes(n) != spec_u64_to_le_bytes(m),
    {
        vstd::bytes::lemma_auto_spec_u64_to_from_le_bytes();
        let (x, y) = (spec_u64_to_le_bytes(n), spec_u64_to_le_bytes(m));
        assert(vstd::bytes::spec_u64_from_le_bytes(x) == n);
        assert(vstd::bytes::spec_u64_from_le_bytes(y) == m);
    }

    /// Skipping blocks in two goes is skipping them at once, and one block is
    /// what is behind the next.
    pub proof fn skips_add_up(self, n: nat, m: nat)
        ensures
            self.skip(0) == self,
            self.skip(1) == self.rest(),
            self.skip(n).skip(m) == self.skip(n + m),
        decreases m,
    {
        reveal_with_fuel(PRG::skip, 2);
        if m > 0 {
            self.skips_add_up(n, (m - 1) as nat);
        }
    }

    /// A number that is read below a bound is the rest of the first half of the
    /// block, as a number with the lowest byte first, after division by the
    /// bound.
    pub proof fn number_below_is_a_rest(self, bound: nat)
        requires
            bound > 0,
        ensures
            self.number_below(bound) < bound,
            exists|q: nat|
                spec_u128_from_le_bytes(self.block()@.subrange(0, 16)) == #[trigger] (q * bound)
                    + self.number_below(bound),
    {
        let v = spec_u128_from_le_bytes(self.block()@.subrange(0, 16)) as nat;
        let q = v / bound;
        vstd::arithmetic::div_mod::lemma_fundamental_div_mod(v as int, bound as int);
        assert(q * bound == bound * q) by (nonlinear_arith);
        assert(v == q * bound + self.number_below(bound));
    }

    /// Starts the stream of a key.
    pub fn new(key: [u8; KEY_SIZE]) -> (prg: PRG)
        ensures
            prg == PRG::from_key(key),
    {
        PRG { key, counter: 0 }
    }

    /// Takes the next block.
    pub fn next_block(&mut self) -> (block: [u8; HASH_SIZE])
        ensures
            block == old(self).block(),
            *final(self) == old(self).rest(),
    {
        let position = u64_to_le_bytes(self.counter);
        let block = keyed_hash(&self.key, position.as_slice());
        self.counter = self.counter.wrapping_add(1);
        block
    }

    /// Takes the next block and reduces the number in its first half.
    pub fn next_below(&mut self, bound: usize) -> (n: usize)
        requires
            bound > 0,
        ensures
            n == old(self).number_below(bound as nat),
            n < bound,
            *final(self) == old(self).rest(),
    {
        let block = self.next_block();
        let half = vstd::slice::slice_subrange(block.as_slice(), 0, 16);
        let n: u128 = u128_from_le_bytes(half) % (bound as u128);
        n as usize
    }
}

} // verus!
