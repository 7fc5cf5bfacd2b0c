//! One repetition of the preprocessing.

use std::collections::HashMap;
use vstd::prelude::*;

use crate::algebra::add_vectors;
use crate::algebra::multiple;
use crate::algebra::reconstruct;
use crate::algebra::scale_vector;
use crate::algebra::sum;
use crate::algebra::vector_sum;
use crate::algebra::zeros;
use crate::algebra::Domain;
use crate::algebra::RingElement;
use crate::algebra::RingModule;
use crate::consts::CONTEXT_RNG_BEAVER;
use crate::consts::CONTEXT_RNG_BRANCH_MASK;
use crate::consts::CONTEXT_RNG_BRANCH_PERMUTE;
use crate::consts::CONTEXT_RNG_INPUT_MASK;
use crate::crypto::digest;
use crate::crypto::joined;
use crate::crypto::prf::key_leaves;
use crate::crypto::TreePRF;
use crate::crypto::KEY_SIZE;
use crate::crypto::PRG;
use crate::instruction::Instruction;
use crate::preprocessing::packing::all_contents;
use crate::preprocessing::packing::contents;
use crate::preprocessing::shares::branch_permutation;
use crate::preprocessing::shares::seeded;
use crate::preprocessing::shares::seeded_all;
use crate::preprocessing::shares::tape_share;
use crate::preprocessing::shares::ShareGenerator;
use crate::preprocessing::shares::SharesGenerator;
use crate::util::identity;
use crate::util::shuffled;

verus! {

/// How far a repetition has come: the masks of the wires, shared among the
/// players, the corrections of the products, and how much was taken from each
/// tape.
pub struct Progress<S> {
    pub masks: Map<usize, Seq<S>>,
    pub corrections: Seq<S>,
    pub inputs: nat,
    pub branches: nat,
    pub triples: nat,
}

/// A repetition before its first instruction.
pub open spec fn start<S>() -> Progress<S> {
    Progress {
        masks: Map::empty(),
        corrections: Seq::empty(),
        inputs: 0,
        branches: 0,
        triples: 0,
    }
}

/// The mask of a wire, zero where the wire was not written.
pub open spec fn mask_of<D: Domain>(masks: Map<usize, Seq<D::Scalar>>, wire: usize) -> Seq<
    D::Scalar,
> {
    if masks.contains_key(wire) {
        masks[wire]
    } else {
        zeros(D::PLAYERS as nat)
    }
}

/// What must be added to the sharing `ab` so that it sums to the product of
/// the masks `a` and `b`.
pub open spec fn correction<S: RingElement>(a: Seq<S>, b: Seq<S>, ab: Seq<S>) -> S {
    sum(a).spec_times(sum(b)).spec_minus(sum(ab))
}

/// The effect of an instruction.
pub open spec fn step<D: Domain>(
    seeds: Seq<[u8; KEY_SIZE]>,
    s: Progress<D::Scalar>,
    instruction: Instruction<D::Scalar>,
) -> Progress<D::Scalar> {
    match instruction {
        Instruction::AddConst(dst, src, _c) => Progress {
            masks: s.masks.insert(dst, mask_of::<D>(s.masks, src)),
            ..s
        },
        Instruction::MulConst(dst, src, c) => Progress {
            masks: s.masks.insert(dst, multiple(mask_of::<D>(s.masks, src), c)),
            ..s
        },
        Instruction::Add(dst, src1, src2) => Progress {
            masks: s.masks.insert(
                dst,
                vector_sum(mask_of::<D>(s.masks, src1), mask_of::<D>(s.masks, src2)),
            ),
            ..s
        },
        Instruction::Mul(dst, src1, src2) => {
            let tape = seeded_all(CONTEXT_RNG_BEAVER@, seeds);
            Progress {
                masks: s.masks.insert(dst, tape_share::<D>(tape, s.triples + 1)),
                corrections: s.corrections.push(
                    correction(
                        mask_of::<D>(s.masks, src1),
                        mask_of::<D>(s.masks, src2),
                        tape_share::<D>(tape, s.triples),
                    ),
                ),
                triples: s.triples + 2,
                ..s
            }
        },
        Instruction::Branch(dst) => Progress {
            masks: s.masks.insert(
                dst,
                tape_share::<D>(seeded_all(CONTEXT_RNG_BRANCH_MASK@, seeds), s.branches),
            ),
            branches: s.branches + 1,
            ..s
        },
        Instruction::Input(dst) => Progress {
            masks: s.masks.insert(
                dst,
                tape_share::<D>(seeded_all(CONTEXT_RNG_INPUT_MASK@, seeds), s.inputs),
            ),
            inputs: s.inputs + 1,
            ..s
        },
        Instruction::Output(_src) => s,
    }
}

/// The effect of a program, one instruction after the other.
pub open spec fn run<D: Domain>(
    seeds: Seq<[u8; KEY_SIZE]>,
    s: Progress<D::Scalar>,
    program: Seq<Instruction<D::Scalar>>,
) -> Progress<D::Scalar>
    decreases program.len(),
{
    if program.len() == 0 {
        s
    } else {
        step::<D>(seeds, run::<D>(seeds, s, program.drop_last()), program.last())
    }
}

/// Running a program in two parts is running it at once.
pub proof fn run_in_parts<D: Domain>(
    seeds: Seq<[u8; KEY_SIZE]>,
    s: Progress<D::Scalar>,
    first: Seq<Instruction<D::Scalar>>,
    second: Seq<Instruction<D::Scalar>>,
)
    ensures
        run::<D>(seeds, run::<D>(seeds, s, first), second) == run::<D>(seeds, s, first + second),
    decreases second.len(),
{
    if second.len() == 0 {
        assert(first + second =~= first);
    } else {
        run_in_parts::<D>(seeds, s, first, second.drop_last());
        assert((first + second).drop_last() =~= first + second.drop_last());
    }
}

/// The effect of a program that comes in parts.
pub open spec fn run_parts<D: Domain>(
    seeds: Seq<[u8; KEY_SIZE]>,
    s: Progress<D::Scalar>,
    parts: Seq<Seq<Instruction<D::Scalar>>>,
) -> Progress<D::Scalar>
    decreases parts.len(),
{
    if parts.len() == 0 {
        s
    } else {
        run::<D>(seeds, run_parts::<D>(seeds, s, parts.drop_last()), parts.last())
    }
}

/// Running the parts of a program one after the other is running it at once.
pub proof fn parts_run_as_one<D: Domain>(
    seeds: Seq<[u8; KEY_SIZE]>,
    s: Progress<D::Scalar>,
    parts: Seq<Seq<Instruction<D::Scalar>>>,
)
    ensures
        run_parts::<D>(seeds, s, parts) == run::<D>(seeds, s, parts.flatten()),
    decreases parts.len(),
{
    if parts.len() > 0 {
        let (front, last) = (parts.drop_last(), parts.last());
        parts_run_as_one::<D>(seeds, s, front);
        run_in_parts::<D>(seeds, s, front.flatten(), last);
        front.lemma_flatten_push(last);
        assert(front.push(last) =~= parts);
    }
}

/// The corrected sharing of a product sums to the product.
pub proof fn correction_completes_product<S: RingElement>(a: Seq<S>, b: Seq<S>, ab: Seq<S>)
    ensures
        sum(ab).spec_plus(correction(a, b, ab)) == sum(a).spec_times(sum(b)),
{
    S::minus_undoes_plus(sum(a).spec_times(sum(b)), sum(ab));
}

/// The bytes of a list of ring elements.
pub open spec fn element_bytes<S: RingElement>(elements: Seq<S>) -> Seq<u8> {
    Seq::new(elements.len(), |i: int| elements[i].spec_byte())
}

/// The elements of a branch, each hidden by the sum of a sharing of a tape.
pub open spec fn masked<D: Domain>(elements: Seq<D::Scalar>, tape: Seq<PRG>) -> Seq<D::Scalar> {
    Seq::new(
        elements.len(),
        |j: int| elements[j].spec_plus(sum(tape_share::<D>(tape, j as nat))),
    )
}

/// The hash of a branch, masked with a tape.
pub open spec fn branch_hash<D: Domain>(
    branch: Seq<Seq<D::Scalar>>,
    tape: Seq<PRG>,
) -> crate::crypto::Hash {
    crate::crypto::Hash { bytes: digest(element_bytes(masked::<D>(branch.flatten(), tape))) }
}

/// The hashes of all branches, in the order that belongs to the root seed.
pub open spec fn branch_hashes<D: Domain>(
    root: [u8; KEY_SIZE],
    branches: Seq<Seq<Seq<D::Scalar>>>,
) -> Seq<crate::crypto::Hash> {
    let order = shuffled(
        seeded(CONTEXT_RNG_BRANCH_PERMUTE@, root),
        identity(branches.len()),
        0,
    );
    let tape = seeded_all(
        CONTEXT_RNG_BRANCH_MASK@,
        key_leaves(root, D::PLAYERS as nat),
    );
    Seq::new(branches.len(), |b: int| branch_hash::<D>(branches[order[b] as int], tape))
}

/// The commitments to the players: to their seeds, and in the case of the
/// first player also to the corrections.
pub open spec fn player_commitments<S: RingElement>(
    seeds: Seq<[u8; KEY_SIZE]>,
    corrections: Seq<S>,
) -> Seq<crate::crypto::Hash> {
    Seq::new(
        seeds.len(),
        |p: int|
            crate::crypto::Hash {
                bytes: digest(
                    if p == 0 {
                        seeds[p]@ + element_bytes(corrections)
                    } else {
                        seeds[p]@
                    },
                ),
            },
    )
}

/// The commitment to a whole repetition.
pub open spec fn union_commitment(
    commitments: Seq<crate::crypto::Hash>,
    branches: Seq<crate::crypto::Hash>,
) -> crate::crypto::Hash {
    crate::crypto::Hash { bytes: digest(joined(commitments) + joined(branches)) }
}

/// What a repetition commits to: the commitment to all of it, and the
/// commitments to the players.
pub open spec fn repetition<D: Domain>(
    root: [u8; KEY_SIZE],
    branches: Seq<Seq<Seq<D::Scalar>>>,
    program: Seq<Instruction<D::Scalar>>,
) -> (crate::crypto::Hash, Seq<crate::crypto::Hash>) {
    let seeds = key_leaves(root, D::PLAYERS as nat);
    let end = run::<D>(seeds, start(), program);
    let commitments = player_commitments(seeds, end.corrections);
    (union_commitment(commitments, branch_hashes::<D>(root, branches)), commitments)
}

/// The elements of a list of batches, one behind the other.
fn unpack<D: Domain>(batches: &Vec<D::Batch>) -> (elements: Vec<D::Scalar>)
    ensures
        elements@ == contents::<D::Scalar, D::Batch>(batches@).flatten(),
{
    let ghost vectors = contents::<D::Scalar, D::Batch>(batches@);
    let mut elements: Vec<D::Scalar> = Vec::new();
    let mut k: usize = 0;
    while k < batches.len()
        invariant
            k <= batches@.len(),
            vectors == contents::<D::Scalar, D::Batch>(batches@),
            elements@ == vectors.take(k as int).flatten(),
        decreases batches@.len() - k,
    {
        let ghost before = elements@;
        let batch = batches[k];
        proof {
            batch.length();
        }
        let mut i: usize = 0;
        while i < D::Batch::DIMENSION
            invariant
                i <= D::Batch::DIMENSION,
                batch.elements().len() == D::Batch::DIMENSION,
                elements@ == before + batch.elements().take(i as int),
            decreases D::Batch::DIMENSION - i,
        {
            elements.push(batch.get(i));
            proof {
                assert(elements@ =~= before + batch.elements().take(i + 1));
            }
            i = i + 1;
        }
        proof {
            assert(batch.elements().take(i as int) =~= batch.elements());
            assert(vectors.take(k + 1) =~= vectors.take(k as int).push(vectors[k as int]));
            vectors.take(k as int).lemma_flatten_push(vectors[k as int]);
        }
        k = k + 1;
    }
    proof {
        assert(vectors.take(k as int) =~= vectors);
    }
    elements
}

/// Hashes a branch, masked with the sharings of a fresh generator.
fn hash_branch<D: Domain>(
    branch: &Vec<D::Batch>,
    generator: ShareGenerator<D>,
) -> (hash: crate::crypto::Hash)
    requires
        generator.wf(),
        generator.position() == 0,
    ensures
        hash == branch_hash::<D>(
            contents::<D::Scalar, D::Batch>(branch@),
            generator.tape(),
        ),
{
    let elements = unpack::<D>(branch);
    let ghost tape = generator.tape();
    let ghost bytes = element_bytes(masked::<D>(elements@, tape));
    let mut masks = generator;
    let mut message: Vec<u8> = Vec::with_capacity(elements.len());
    let mut j: usize = 0;
    while j < elements.len()
        invariant
            j <= elements@.len(),
            masks.wf(),
            masks.tape() == tape,
            masks.position() == j,
            bytes == element_bytes(masked::<D>(elements@, tape)),
            message@ == bytes.take(j as int),
        decreases elements@.len() - j,
    {
        let mask = reconstruct::<D::Scalar, D::Sharing>(&masks.next());
        message.push(elements[j].plus(mask).byte());
        j = j + 1;
    }
    proof {
        assert(bytes.take(j as int) =~= bytes);
    }
    crate::crypto::Hash::of(message.as_slice())
}

/// The bytes of a list of hashes, behind those of another.
fn join_hashes(
    first: &Vec<crate::crypto::Hash>,
    second: &Vec<crate::crypto::Hash>,
) -> (bytes: Vec<u8>)
    ensures
        bytes@ == joined(first@) + joined(second@),
{
    let mut bytes: Vec<u8> = Vec::new();
    push_hashes(first, &mut bytes);
    push_hashes(second, &mut bytes);
    bytes
}

/// Appends the bytes of a list of hashes.
fn push_hashes(hashes: &Vec<crate::crypto::Hash>, bytes: &mut Vec<u8>)
    ensures
        final(bytes)@ == old(bytes)@ + joined(hashes@),
{
    let mut i: usize = 0;
    while i < hashes.len()
        invariant
            i <= hashes@.len(),
            bytes@ == old(bytes)@ + joined(hashes@.take(i as int)),
        decreases hashes@.len() - i,
    {
        bytes.extend_from_slice(hashes[i].as_bytes().as_slice());
        proof {
            assert(hashes@.take(i + 1).drop_last() =~= hashes@.take(i as int));
        }
        i = i + 1;
    }
    proof {
        assert(hashes@.take(i as int) =~= hashes@);
    }
}

/// A repetition that is being executed.
pub struct PreprocessingExecution<D: Domain> {
    seeds: Vec<[u8; KEY_SIZE]>,
    branch_hashes: Vec<crate::crypto::Hash>,
    shares: SharesGenerator<D>,
    masks: HashMap<usize, D::Sharing>,
    corrections: Vec<D::Scalar>,
}

impl<D: Domain> PreprocessingExecution<D> {
    /// The seeds of the players.
    pub closed spec fn seeds(self) -> Seq<[u8; KEY_SIZE]> {
        self.seeds@
    }

    /// The hashes of the masked branches.
    pub closed spec fn branch_hashes(self) -> Seq<crate::crypto::Hash> {
        self.branch_hashes@
    }

    /// What the instructions so far have done.
    pub closed spec fn progress(self) -> Progress<D::Scalar> {
        Progress {
            masks: self.masks@.map_values(|mask: D::Sharing| mask.elements()),
            corrections: self.corrections@,
            inputs: self.shares.input.position(),
            branches: self.shares.branch.position(),
            triples: self.shares.beaver.position(),
        }
    }

    /// The tapes belong to the seeds of the players.
    pub closed spec fn wf(self) -> bool {
        &&& self.seeds@.len() == D::PLAYERS
        &&& self.shares.input.wf()
        &&& self.shares.input.tape() == seeded_all(CONTEXT_RNG_INPUT_MASK@, self.seeds@)
        &&& self.shares.branch.wf()
        &&& self.shares.branch.tape() == seeded_all(CONTEXT_RNG_BRANCH_MASK@, self.seeds@)
        &&& self.shares.beaver.wf()
        &&& self.shares.beaver.tape() == seeded_all(CONTEXT_RNG_BEAVER@, self.seeds@)
    }

    /// Starts the repetition of a root seed.
    pub fn new(root: [u8; KEY_SIZE], branches: &Vec<Vec<D::Batch>>) -> (execution: Self)
        ensures
            execution.wf(),
            execution.seeds() == key_leaves(root, D::PLAYERS as nat),
            execution.branch_hashes() == branch_hashes::<D>(root, all_contents::<D>(branches@)),
            execution.progress() == start::<D::Scalar>(),
    {
        broadcast use vstd::std_specs::hash::group_hash_axioms;

        // expand the root into the seeds of the players
        let seeds = TreePRF::expand_full(D::PLAYERS, root);

        // commit to the masked branches in a random order
        let order = branch_permutation(&root, branches.len());
        let ghost expected = branch_hashes::<D>(root, all_contents::<D>(branches@));
        let mut hashes: Vec<crate::crypto::Hash> = Vec::with_capacity(branches.len());
        let mut b: usize = 0;
        while b < branches.len()
            invariant
                b <= branches@.len(),
                seeds@.len() == D::PLAYERS,
                seeds@ == key_leaves(root, D::PLAYERS as nat),
                order@.len() == branches@.len(),
                forall|i: int| 0 <= i < order@.len() ==> #[trigger] order@[i] < branches@.len(),
                order@ == shuffled(
                    seeded(CONTEXT_RNG_BRANCH_PERMUTE@, root),
                    identity(branches@.len()),
                    0,
                ),
                expected == branch_hashes::<D>(root, all_contents::<D>(branches@)),
                hashes@ == expected.take(b as int),
            decreases branches@.len() - b,
        {
            let tapes: SharesGenerator<D> = SharesGenerator::new(seeds.as_slice());
            hashes.push(hash_branch(&branches[order[b]], tapes.branch));
            b = b + 1;
        }
        proof {
            assert(expected.take(b as int) =~= expected);
        }

        let shares: SharesGenerator<D> = SharesGenerator::new(seeds.as_slice());
        let execution = PreprocessingExecution {
            seeds,
            branch_hashes: hashes,
            shares,
            masks: HashMap::new(),
            corrections: Vec::new(),
        };
        proof {
            assert(execution.progress().masks =~= Map::empty());
        }
        execution
    }

    /// The mask of a wire.
    fn mask(&self, wire: usize) -> (mask: D::Sharing)
        ensures
            mask.elements() == mask_of::<D>(self.progress().masks, wire),
    {
        broadcast use vstd::std_specs::hash::group_hash_axioms;

        match self.masks.get(&wire) {
            Some(mask) => *mask,
            None => {
                proof {
                    D::parameters();
                }
                D::Sharing::zero()
            },
        }
    }

    /// Sets the mask of a wire.
    fn set_mask(&mut self, wire: usize, mask: D::Sharing)
        requires
            old(self).wf(),
        ensures
            final(self).wf(),
            final(self).seeds() == old(self).seeds(),
            final(self).branch_hashes() == old(self).branch_hashes(),
            final(self).progress() == (Progress {
                masks: old(self).progress().masks.insert(wire, mask.elements()),
                ..old(self).progress()
            }),
    {
        broadcast use vstd::std_specs::hash::group_hash_axioms;

        self.masks.insert(wire, mask);
        proof {
            assert(self.progress().masks =~= old(self).progress().masks.insert(
                wire,
                mask.elements(),
            ));
        }
    }

    /// Executes an instruction.
    fn execute(&mut self, instruction: Instruction<D::Scalar>)
        requires
            old(self).wf(),
        ensures
            final(self).wf(),
            final(self).seeds() == old(self).seeds(),
            final(self).branch_hashes() == old(self).branch_hashes(),
            final(self).progress() == step::<D>(
                old(self).seeds(),
                old(self).progress(),
                instruction,
            ),
    {
        match instruction {
            Instruction::AddConst(dst, src, _c) => {
                let mask = self.mask(src);
                self.set_mask(dst, mask);
            },
            Instruction::MulConst(dst, src, c) => {
                let mask = scale_vector::<D::Scalar, D::Sharing>(&self.mask(src), c);
                self.set_mask(dst, mask);
            },
            Instruction::Add(dst, src1, src2) => {
                let mask = add_vectors::<D::Scalar, D::Sharing>(
                    &self.mask(src1),
                    &self.mask(src2),
                );
                self.set_mask(dst, mask);
            },
            Instruction::Mul(dst, src1, src2) => {
                let a = reconstruct::<D::Scalar, D::Sharing>(&self.mask(src1));
                let b = reconstruct::<D::Scalar, D::Sharing>(&self.mask(src2));
                let ab = reconstruct::<D::Scalar, D::Sharing>(&self.shares.beaver.next());
                self.corrections.push(a.times(b).minus(ab));
                let mask = self.shares.beaver.next();
                self.set_mask(dst, mask);
            },
            Instruction::Branch(dst) => {
                let mask = self.shares.branch.next();
                self.set_mask(dst, mask);
            },
            Instruction::Input(dst) => {
                let mask = self.shares.input.next();
                self.set_mask(dst, mask);
            },
            Instruction::Output(_src) => {},
        }
    }

    /// Executes the next part of the program.
    pub fn prove(&mut self, program: &[Instruction<D::Scalar>])
        requires
            old(self).wf(),
        ensures
            final(self).wf(),
            final(self).seeds() == old(self).seeds(),
            final(self).branch_hashes() == old(self).branch_hashes(),
            final(self).progress() == run::<D>(old(self).seeds(), old(self).progress(), program@),
    {
        let mut i: usize = 0;
        while i < program.len()
            invariant
                i <= program@.len(),
                self.wf(),
                self.seeds() == old(self).seeds(),
                self.branch_hashes() == old(self).branch_hashes(),
                self.progress() == run::<D>(
                    old(self).seeds(),
                    old(self).progress(),
                    program@.take(i as int),
                ),
            decreases program@.len() - i,
        {
            self.execute(program[i]);
            proof {
                assert(program@.take(i + 1).drop_last() =~= program@.take(i as int));
            }
            i = i + 1;
        }
        proof {
            assert(program@.take(i as int) =~= program@);
        }
    }

    /// Ends the repetition: the commitment to all of it, and the commitments
    /// to the players.
    pub fn done(self) -> (result: (crate::crypto::Hash, Vec<crate::crypto::Hash>))
        requires
            self.wf(),
        ensures
            result.1@ == player_commitments(self.seeds(), self.progress().corrections),
            result.0 == union_commitment(result.1@, self.branch_hashes()),
    {
        let ghost expected = player_commitments(self.seeds(), self.progress().corrections);
        let mut commitments: Vec<crate::crypto::Hash> = Vec::with_capacity(self.seeds.len());
        let mut p: usize = 0;
        while p < self.seeds.len()
            invariant
                p <= self.seeds@.len(),
                expected == player_commitments(self.seeds(), self.progress().corrections),
                commitments@ == expected.take(p as int),
            decreases self.seeds@.len() - p,
        {
            let mut message: Vec<u8> = Vec::new();
            message.extend_from_slice(self.seeds[p].as_slice());
            if p == 0 {
                push_elements(&self.corrections, &mut message);
            }
            proof {
                assert(message@ =~= if p == 0 {
                    self.seeds@[0]@ + element_bytes(self.corrections@)
                } else {
                    self.seeds@[p as int]@
                });
            }
            commitments.push(crate::crypto::Hash::of(message.as_slice()));
            p = p + 1;
        }
        proof {
            assert(expected.take(p as int) =~= expected);
        }
        let message = join_hashes(&commitments, &self.branch_hashes);
        (crate::crypto::Hash::of(message.as_slice()), commitments)
    }
}

/// Appends the bytes of a list of ring elements.
fn push_elements<S: RingElement>(elements: &Vec<S>, bytes: &mut Vec<u8>)
    ensures
        final(bytes)@ == old(bytes)@ + element_bytes(elements@),
{
    let mut i: usize = 0;
    while i < elements.len()
        invariant
            i <= elements@.len(),
            bytes@ == old(bytes)@ + element_bytes(elements@).take(i as int),
        decreases elements@.len() - i,
    {
        bytes.push(elements[i].byte());
        proof {
            assert(bytes@ =~= old(bytes)@ + element_bytes(elements@).take(i + 1));
        }
        i = i + 1;
    }
    proof {
        assert(element_bytes(elements@).take(i as int) =~= element_bytes(elements@));
    }
}

} // verus!
