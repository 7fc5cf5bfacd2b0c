//! The proof that the preprocessing was executed correctly.

use std::marker::PhantomData;
use std::sync::Arc;
use vstd::prelude::*;
use vstd::std_specs::iter::IteratorSpec;

use crate::algebra::Domain;
use crate::algebra::RingModule;
use crate::consts::BATCH_SIZE;
use crate::consts::LABEL_RNG_OPEN_PREPROCESSING;
use crate::consts::LABEL_SCOPE_AGGREGATE_COMMIT;
use crate::crypto::derived_key;
use crate::crypto::joined;
use crate::crypto::prf::key_leaves;
use crate::crypto::prf::lemma_key_leaves_len;
use crate::crypto::KeyTree;
use crate::crypto::TreePRF;
use crate::crypto::KEY_SIZE;
use crate::crypto::PRG;
use crate::fs::Oracle;
use crate::instruction::Instruction;
use crate::preprocessing::execution::branch_hashes;
use crate::preprocessing::execution::repetition;
use crate::preprocessing::execution::run;
use crate::preprocessing::execution::run_in_parts;
use crate::preprocessing::execution::start;
use crate::preprocessing::execution::PreprocessingExecution;
use crate::preprocessing::opening::hidden_before;
use crate::preprocessing::opening::hidden_indices;
use crate::preprocessing::opening::hidden_positions_are_counted;
use crate::preprocessing::opening::opened_keys_are_those_known;
use crate::preprocessing::opening::interleaved;
use crate::preprocessing::opening::known_of;
use crate::preprocessing::opening::lemma_hidden_before;
use crate::preprocessing::opening::lemma_opened_len;
use crate::preprocessing::opening::lemma_punctured_push;
use crate::preprocessing::opening::opened_keys;
use crate::preprocessing::opening::punctured;
use crate::preprocessing::opening::selected;
use crate::preprocessing::packing::all_contents;
use crate::preprocessing::packing::branch_elements;
use crate::preprocessing::packing::pack_branches;
use crate::preprocessing::packing::packed_all;
use crate::util::at_most;
use crate::util::increasing;
use crate::util::lemma_subset_of;
use crate::util::random_subset;
use crate::util::read_n;
use crate::util::subset_of;

verus! {

/// Reads the next part of a program, `None` at its end.
pub fn feed<D: Domain, PI: Iterator<Item = Instruction<D::Scalar>>>(program: &mut PI) -> (part:
    Option<Vec<Instruction<D::Scalar>>>)
    ensures
        part matches Some(instructions) ==> 0 < instructions@.len() <= BATCH_SIZE,
        (*final(program)).obeys_prophetic_iter_laws()
            == (*old(program)).obeys_prophetic_iter_laws(),
        (*old(program)).obeys_prophetic_iter_laws() ==> {
            let len = at_most(BATCH_SIZE as nat, (*old(program)).remaining().len());
            &&& part is None == ((*old(program)).remaining().len() == 0)
            &&& part matches Some(instructions) ==> instructions@
                == (*old(program)).remaining().take(len)
            &&& part matches Some(instructions) ==> instructions@ + (*final(program)).remaining()
                == (*old(program)).remaining()
            &&& part matches Some(instructions) ==> instructions@.len() == BATCH_SIZE
                || (*final(program)).remaining().len() == 0
            &&& (*final(program)).remaining() == (*old(program)).remaining().skip(len)
            &&& (*final(program)).decrease() is Some == (*old(program)).decrease() is Some
            &&& (*old(program)).decrease() is Some && len == BATCH_SIZE
                ==> (*final(program)).decrease()->0 < (*old(program)).decrease()->0
        },
{
    let instructions = read_n(program, BATCH_SIZE);
    if instructions.len() == 0 {
        None
    } else {
        Some(instructions)
    }
}

/// An execution of the repetition of a root seed has executed a program.
spec fn at<D: Domain>(
    execution: PreprocessingExecution<D>,
    root: [u8; KEY_SIZE],
    branches: Seq<Seq<Seq<D::Scalar>>>,
    program: Seq<Instruction<D::Scalar>>,
) -> bool {
    let seeds = key_leaves(root, D::PLAYERS as nat);
    &&& execution.wf()
    &&& execution.seeds() == seeds
    &&& execution.branch_hashes() == branch_hashes::<D>(root, branches)
    &&& execution.progress() == run::<D>(seeds, start(), program)
}

/// The generator with which the oracle answers to the commitments of all
/// repetitions.
pub open spec fn oracle_answer(hashes: Seq<crate::crypto::Hash>) -> PRG {
    let message = derived_key(LABEL_SCOPE_AGGREGATE_COMMIT@, joined(hashes));
    PRG::from_key(derived_key(LABEL_RNG_OPEN_PREPROCESSING@, message@))
}

/// The repetitions that the oracle hides.
pub open spec fn challenge<D: Domain>(hashes: Seq<crate::crypto::Hash>) -> Seq<usize> {
    subset_of(
        oracle_answer(hashes),
        0,
        D::PREPROCESSING_REPETITIONS as nat,
        D::ONLINE_REPETITIONS as nat,
    )
}

/// What the repetitions of some roots commit to.
pub open spec fn repetitions<D: Domain>(
    roots: Seq<[u8; KEY_SIZE]>,
    branches: Seq<Seq<Seq<D::Scalar>>>,
    program: Seq<Instruction<D::Scalar>>,
) -> Seq<(crate::crypto::Hash, Seq<crate::crypto::Hash>)> {
    Seq::new(roots.len(), |i: int| repetition::<D>(roots[i], branches, program))
}

/// The contents of the results of some repetitions.
pub open spec fn result_contents(
    results: Seq<(crate::crypto::Hash, Vec<crate::crypto::Hash>)>,
) -> Seq<(crate::crypto::Hash, Seq<crate::crypto::Hash>)> {
    Seq::new(results.len(), |i: int| (results[i].0, results[i].1@))
}

/// What the contents of a list of results say of each result.
proof fn lemma_result_contents(
    results: Seq<(crate::crypto::Hash, Vec<crate::crypto::Hash>)>,
    expected: Seq<(crate::crypto::Hash, Seq<crate::crypto::Hash>)>,
)
    requires
        result_contents(results) == expected,
    ensures
        results.len() == expected.len(),
        forall|i: int|
            0 <= i < results.len() ==> (#[trigger] results[i]).0 == expected[i].0 && results[i].1@
                == expected[i].1,
{
    assert forall|i: int| 0 <= i < results.len() implies (#[trigger] results[i]).0
        == expected[i].0 && results[i].1@ == expected[i].1 by {
        assert(result_contents(results)[i] == expected[i]);
    }
}

/// The commitments to the repetitions of some roots.
pub open spec fn repetition_hashes<D: Domain>(
    roots: Seq<[u8; KEY_SIZE]>,
    branches: Seq<Seq<Seq<D::Scalar>>>,
    program: Seq<Instruction<D::Scalar>>,
) -> Seq<crate::crypto::Hash> {
    Seq::new(roots.len(), |i: int| repetition::<D>(roots[i], branches, program).0)
}

/// The commitments to all repetitions of a global seed.
pub open spec fn all_hashes<D: Domain>(
    global: [u8; KEY_SIZE],
    branches: Seq<Seq<D::Scalar>>,
    program: Seq<Instruction<D::Scalar>>,
) -> Seq<crate::crypto::Hash> {
    repetition_hashes::<D>(
        key_leaves(global, D::PREPROCESSING_REPETITIONS as nat),
        packed_all(branches, D::Batch::DIMENSION as nat),
        program,
    )
}

/// The repetitions of a global seed that the oracle hides.
pub open spec fn hidden_runs<D: Domain>(
    global: [u8; KEY_SIZE],
    branches: Seq<Seq<D::Scalar>>,
    program: Seq<Instruction<D::Scalar>>,
) -> Seq<RunModel> {
    let roots = key_leaves(global, D::PREPROCESSING_REPETITIONS as nat);
    let hidden = challenge::<D>(all_hashes::<D>(global, branches, program));
    Seq::new(
        D::ONLINE_REPETITIONS as nat,
        |j: int|
            {
                let root = roots[hidden[j] as int];
                let result = repetition::<D>(
                    root,
                    packed_all(branches, D::Batch::DIMENSION as nat),
                    program,
                );
                run_model(root, result.0, result.1)
            },
    )
}

/// The commitments among the results of all repetitions.
pub open spec fn result_hashes(
    results: Seq<(crate::crypto::Hash, Vec<crate::crypto::Hash>)>,
) -> Seq<crate::crypto::Hash> {
    Seq::new(results.len(), |i: int| results[i].0)
}

/// Sends the commitments of all repetitions to the oracle and reads the answer
/// as a subset to hide.
fn draw_challenge<D: Domain>(hashes: &Vec<crate::crypto::Hash>) -> (hidden: Vec<usize>)
    ensures
        hidden@ == challenge::<D>(hashes@),
        hidden@.len() == D::ONLINE_REPETITIONS,
        increasing(hidden@),
        forall|j: int|
            0 <= j < hidden@.len() ==> #[trigger] hidden@[j] < D::PREPROCESSING_REPETITIONS,
{
    let mut oracle = Oracle::new();
    let mut scope = oracle.scope(LABEL_SCOPE_AGGREGATE_COMMIT);
    let mut i: usize = 0;
    while i < hashes.len()
        invariant
            i <= hashes@.len(),
            scope.label() == LABEL_SCOPE_AGGREGATE_COMMIT@,
            scope.message() == joined(hashes@.take(i as int)),
        decreases hashes@.len() - i,
    {
        scope.join(&hashes[i]);
        proof {
            assert(hashes@.take(i + 1).drop_last() =~= hashes@.take(i as int));
        }
        i = i + 1;
    }
    proof {
        assert(hashes@.take(i as int) =~= hashes@);
        D::parameters();
    }
    oracle.close(scope);
    proof {
        assert(oracle.absorbed() =~= derived_key(
            LABEL_SCOPE_AGGREGATE_COMMIT@,
            joined(hashes@),
        )@);
    }
    let mut challenge_prg = oracle.prg(LABEL_RNG_OPEN_PREPROCESSING);
    random_subset(
        &mut challenge_prg,
        D::PREPROCESSING_REPETITIONS,
        D::ONLINE_REPETITIONS,
    )
}

/// Represents repeated execution of the preprocessing phase.
/// The preprocessing phase is executed `D::PREPROCESSING_REPETITIONS` times,
/// then fed to a random oracle, which dictates the subset of executions to
/// open.
pub struct Proof<D: Domain> {
    // commitments to the hidden executions
    hidden: Vec<crate::crypto::Hash>,
    // punctured function that gives the randomness of the opened executions
    random: TreePRF,
    _ph: PhantomData<D>,
}

/// What the prover keeps of a hidden execution.
pub struct Run {
    pub(crate) seed: [u8; KEY_SIZE],  // root seed
    pub(crate) union: crate::crypto::Hash,
    pub(crate) commitments: Vec<crate::crypto::Hash>,  // commitment for every player
}

/// The contents of a [`Run`].
pub struct RunModel {
    pub seed: [u8; KEY_SIZE],
    pub union: crate::crypto::Hash,
    pub commitments: Seq<crate::crypto::Hash>,
}

/// The run that belongs to a root seed and what its repetition commits to.
pub open spec fn run_model(
    seed: [u8; KEY_SIZE],
    union: crate::crypto::Hash,
    commitments: Seq<crate::crypto::Hash>,
) -> RunModel {
    RunModel { seed, union, commitments }
}

impl View for Run {
    type V = RunModel;

    closed spec fn view(&self) -> RunModel {
        RunModel { seed: self.seed, union: self.union, commitments: self.commitments@ }
    }
}

/// Represents the randomness for the preprocessing executions used during the
/// online execution.
///
/// Reusing a `PreprocessingOutput` for multiple proofs violates zero-knowledge:
/// leaking the witness / input to the program.
///
/// For this reason `PreprocessingOutput` does not implement `Copy` or `Clone`,
/// and the online phase takes ownership of the struct, nor does it expose any
/// fields.
pub struct PreprocessingOutput<D: Domain> {
    pub(crate) branches: Arc<Vec<Vec<D::Batch>>>,
    pub(crate) hidden: Vec<Run>,
}

impl<D: Domain> PreprocessingOutput<D> {
    /// The contents of the packed branches.
    pub closed spec fn branches(self) -> Seq<Seq<Seq<D::Scalar>>> {
        all_contents::<D>(self.branches@)
    }

    /// The hidden executions.
    pub closed spec fn runs(self) -> Seq<RunModel> {
        Seq::new(self.hidden@.len(), |j: int| self.hidden@[j]@)
    }
}

/// What a verifier learns from a proof that it accepts.
pub struct Output<D: Domain> {
    pub(crate) hidden: Vec<crate::crypto::Hash>,
    _ph: PhantomData<D>,
}

impl<D: Domain> Output<D> {
    /// The commitments to the hidden executions.
    pub closed spec fn commitments(self) -> Seq<crate::crypto::Hash> {
        self.hidden@
    }

    /// Hands out the commitments to the hidden executions.
    pub fn hidden(&self) -> (hashes: &[crate::crypto::Hash])
        ensures
            hashes@ == self.commitments(),
    {
        self.hidden.as_slice()
    }
}

/// A copy of a list of hashes.
fn copy_hashes(hashes: &Vec<crate::crypto::Hash>) -> (copy: Vec<crate::crypto::Hash>)
    ensures
        copy@ == hashes@,
{
    let mut copy: Vec<crate::crypto::Hash> = Vec::with_capacity(hashes.len());
    let mut i: usize = 0;
    while i < hashes.len()
        invariant
            i <= hashes@.len(),
            copy@ == hashes@.take(i as int),
        decreases hashes@.len() - i,
    {
        copy.push(hashes[i]);
        i = i + 1;
    }
    copy
}

impl<D: Domain> Clone for Proof<D> {
    fn clone(&self) -> (copy: Self)
        ensures
            copy.commitments() == self.commitments(),
            copy.tree() == self.tree(),
    {
        Proof { hidden: copy_hashes(&self.hidden), random: self.random.clone(), _ph: PhantomData }
    }
}

impl<D: Domain> Proof<D> {
    /// The commitments to the hidden executions.
    pub closed spec fn commitments(self) -> Seq<crate::crypto::Hash> {
        self.hidden@
    }

    /// The punctured function.
    pub closed spec fn tree(self) -> TreePRF {
        self.random
    }

    /// The root seeds of the opened repetitions, `None` for the hidden ones.
    pub open spec fn leaves(self) -> Seq<Option<[u8; KEY_SIZE]>> {
        self.tree().root.leaves(D::PREPROCESSING_REPETITIONS as nat)
    }

    /// For each repetition, whether it is opened.
    pub open spec fn known(self) -> Seq<bool> {
        self.tree().root.known(D::PREPROCESSING_REPETITIONS as nat)
    }

    /// The proof hides as many repetitions as it must.
    pub open spec fn hides_enough(self) -> bool {
        hidden_indices(self.known()).len() == D::ONLINE_REPETITIONS
    }

    /// The hidden repetitions are those that the oracle hides, when it is given
    /// the commitments of the proof and those of the opened repetitions.
    pub open spec fn accepts_hashes(self, opened: Seq<crate::crypto::Hash>) -> bool {
        &&& self.hides_enough()
        &&& challenge::<D>(interleaved(self.known(), opened, self.commitments()))
            == hidden_indices(self.known())
    }

    /// The proof is accepted for a program with some branches.
    pub open spec fn accepts(
        self,
        branches: Seq<Seq<D::Scalar>>,
        program: Seq<Instruction<D::Scalar>>,
    ) -> bool {
        self.accepts_hashes(
            repetition_hashes::<D>(
                opened_keys(self.leaves()),
                packed_all(branches, D::Batch::DIMENSION as nat),
                program,
            ),
        )
    }

    /// The proof that belongs to a global seed and the commitments of all
    /// repetitions: it holds the commitments that the oracle hides, and the
    /// tree of the global seed without the hidden leaves, which gives the root
    /// seeds of all other repetitions.
    pub open spec fn made_from(
        self,
        global: [u8; KEY_SIZE],
        hashes: Seq<crate::crypto::Hash>,
    ) -> bool {
        let hidden = challenge::<D>(hashes);
        let roots = key_leaves(global, D::PREPROCESSING_REPETITIONS as nat);
        &&& self.commitments() == selected(hashes, hidden)
        &&& self.tree().size == D::PREPROCESSING_REPETITIONS
        &&& self.tree().root == KeyTree::Key(global).without_all(
            D::PREPROCESSING_REPETITIONS as nat,
            hidden,
        )
        &&& self.tree().values() == punctured(roots, hidden)
    }

    /// A proof with given parts.
    pub fn from_parts(hidden: Vec<crate::crypto::Hash>, random: TreePRF) -> (made: Self)
        ensures
            made.commitments() == hidden@,
            made.tree() == random,
    {
        Proof { hidden, random, _ph: PhantomData }
    }

    /// The commitments to the hidden executions.
    pub fn hidden(&self) -> (hashes: &[crate::crypto::Hash])
        ensures
            hashes@ == self.commitments(),
    {
        self.hidden.as_slice()
    }

    /// The punctured function.
    pub fn random(&self) -> (tree: &TreePRF)
        ensures
            *tree == self.tree(),
    {
        &self.random
    }

    /// The root seeds of the opened repetitions, if the proof hides exactly as
    /// many as it must.
    pub fn open(&self) -> (roots: Option<Vec<[u8; KEY_SIZE]>>)
        ensures
            roots is Some == self.hides_enough(),
            roots is Some == (self.leaves().filter(
                |leaf: Option<[u8; KEY_SIZE]>| leaf is None,
            ).len() == D::ONLINE_REPETITIONS),
            roots matches Some(keys) ==> keys@ == self.leaves().filter(
                |leaf: Option<[u8; KEY_SIZE]>| leaf is Some,
            ).map_values(|leaf: Option<[u8; KEY_SIZE]>| leaf->0),
            roots matches Some(keys) ==> keys@ == opened_keys(self.leaves()) && keys@.len()
                == D::PREPROCESSING_REPETITIONS - D::ONLINE_REPETITIONS,
    {
        let leaves = self.random.expand(D::PREPROCESSING_REPETITIONS);
        let (opened, hidden) = split(&leaves);
        proof {
            self.lemma_known();
            lemma_opened_len(self.leaves());
            hidden_positions_are_counted(self.leaves());
            opened_keys_are_those_known(self.leaves());
        }
        // the prover must hide exactly the repetitions of the online phase
        if hidden.len() != D::ONLINE_REPETITIONS {
            return None;
        }
        Some(opened)
    }

    /// Decides on the proof, given the results of the opened repetitions.
    pub fn check(
        &self,
        opened_results: &Vec<(crate::crypto::Hash, Vec<crate::crypto::Hash>)>,
    ) -> (output: Option<Output<D>>)
        requires
            self.hides_enough() ==> {
                &&& opened_results@.len() == D::PREPROCESSING_REPETITIONS - D::ONLINE_REPETITIONS
                &&& self.commitments().len() >= D::ONLINE_REPETITIONS
            },
        ensures
            output is Some == self.accepts_hashes(result_hashes(opened_results@)),
            output matches Some(o) ==> o.commitments() == self.commitments(),
    {
        let leaves = self.random.expand(D::PREPROCESSING_REPETITIONS);
        let (_, hidden) = split(&leaves);
        proof {
            self.lemma_known();
        }
        if hidden.len() != D::ONLINE_REPETITIONS {
            return None;
        }
        // interleave the commitments of the proof with the recomputed ones

        let ghost opened_hashes = result_hashes(opened_results@);
        let ghost expected = interleaved(self.known(), opened_hashes, self.commitments());
        let mut hashes: Vec<crate::crypto::Hash> = Vec::with_capacity(
            D::PREPROCESSING_REPETITIONS,
        );
        let mut next_open: usize = 0;
        let mut next_hidden: usize = 0;
        let mut i: usize = 0;
        while i < leaves.len()
            invariant
                i <= leaves@.len(),
                leaves@ == self.leaves(),
                leaves@.len() == D::PREPROCESSING_REPETITIONS,
                self.known() == known_of(self.leaves()),
                self.hides_enough(),
                opened_results@.len() == D::PREPROCESSING_REPETITIONS - D::ONLINE_REPETITIONS,
                self.commitments().len() >= D::ONLINE_REPETITIONS,
                opened_hashes == result_hashes(opened_results@),
                expected == interleaved(self.known(), opened_hashes, self.commitments()),
                next_hidden == hidden_before(self.known(), i as int),
                next_open + next_hidden == i,
                hashes@ == expected.take(i as int),
            decreases leaves@.len() - i,
        {
            proof {
                lemma_hidden_before(self.known(), i as int);
                assert(self.known().take(i + 1).drop_last() =~= self.known().take(i as int));
            }
            if leaves[i].is_some() {
                hashes.push(opened_results[next_open].0);
                next_open = next_open + 1;
            } else {
                hashes.push(self.hidden[next_hidden]);
                next_hidden = next_hidden + 1;
            }
            i = i + 1;
        }
        proof {
            assert(expected.take(i as int) =~= expected);
        }

        // accept if the hidden indexes were computed correctly
        let subset = draw_challenge::<D>(&hashes);
        let same: bool = hidden == subset;
        proof {
            assert(same == (hidden@ =~= subset@));
        }
        if same {
            Some(Output { hidden: copy_hashes(&self.hidden), _ph: PhantomData })
        } else {
            None
        }
    }

    /// Verifies the proof: runs the opened repetitions again and asks the oracle
    /// for the hidden ones.
    pub fn verify<PI: Iterator<Item = Instruction<D::Scalar>>>(
        &self,
        branches: &[&[D::Scalar]],
        program: PI,
    ) -> (output: Option<Output<D>>)
        requires
            self.hides_enough() ==> {
                &&& branches@.len() > 0
                &&& self.commitments().len() >= D::ONLINE_REPETITIONS
                &&& program.obeys_prophetic_iter_laws()
                &&& program.decrease() is Some
            },
        ensures
            output is Some == self.accepts(branch_elements(branches@), program.remaining()),
            output matches Some(o) ==> o.commitments() == self.commitments(),
    {
        // pack branch scalars into batches for efficiency
        let batches = pack_branches::<D>(branches);
        proof {
            assert(all_contents::<D>(batches@).len() == branch_elements(branches@).len());
        }

        // derive the roots of the opened repetitions
        match self.open() {
            None => None,
            Some(opened_roots) => {
                // recompute the opened repetitions
                let opened_results = Self::preprocess(
                    opened_roots.as_slice(),
                    &batches,
                    program,
                );
                proof {
                    lemma_result_contents(
                        opened_results@,
                        repetitions::<D>(
                            opened_roots@,
                            all_contents::<D>(batches@),
                            program.remaining(),
                        ),
                    );
                    assert(result_hashes(opened_results@) =~= repetition_hashes::<D>(
                        opened_roots@,
                        all_contents::<D>(batches@),
                        program.remaining(),
                    ));
                }
                self.check(&opened_results)
            },
        }
    }

    /// Executes one repetition for every seed.
    pub fn preprocess<PI: Iterator<Item = Instruction<D::Scalar>>>(
        seeds: &[[u8; KEY_SIZE]],
        branches: &Vec<Vec<D::Batch>>,
        program: PI,
    ) -> (results: Vec<(crate::crypto::Hash, Vec<crate::crypto::Hash>)>)
        requires
            branches@.len() > 0,
            program.obeys_prophetic_iter_laws(),
            program.decrease() is Some,
        ensures
            result_contents(results@) == repetitions::<D>(
                seeds@,
                all_contents::<D>(branches@),
                program.remaining(),
            ),
            results@.len() == seeds@.len(),
            forall|i: int|
                0 <= i < seeds@.len() ==> ((#[trigger] results@[i]).0, results@[i].1@)
                    == repetition::<D>(
                    seeds@[i],
                    all_contents::<D>(branches@),
                    program.remaining(),
                ),
    {
        // start every repetition
        let mut executions: Vec<PreprocessingExecution<D>> = Vec::with_capacity(seeds.len());
        let ghost branch_contents = all_contents::<D>(branches@);
        let mut i: usize = 0;
        while i < seeds.len()
            invariant
                i <= seeds@.len(),
                branch_contents == all_contents::<D>(branches@),
                executions@.len() == i,
                forall|k: int|
                    0 <= k < i ==> at::<D>(
                        #[trigger] executions@[k],
                        seeds@[k],
                        branch_contents,
                        Seq::empty(),
                    ),
            decreases seeds@.len() - i,
        {
            executions.push(PreprocessingExecution::new(seeds[i], branches));
            i = i + 1;
        }

        // feed the program to all of them, part by part
        let mut rest = program;
        let ghost mut at_end: bool = false;
        let ghost mut fed: Seq<Instruction<D::Scalar>> = Seq::empty();
        loop
            invariant
                rest.obeys_prophetic_iter_laws(),
                rest.decrease() is Some,
                program.remaining() == fed + rest.remaining(),
                at_end ==> rest.remaining().len() == 0,
                executions@.len() == seeds@.len(),
                forall|k: int|
                    0 <= k < executions@.len() ==> at::<D>(
                        #[trigger] executions@[k],
                        seeds@[k],
                        branch_contents,
                        fed,
                    ),
            ensures
                rest.remaining().len() == 0,
            decreases
                    if at_end {
                        0int
                    } else {
                        1int
                    },
                    rest.decrease()->0,
        {
            match feed::<D, PI>(&mut rest) {
                None => {
                    break;
                },
                Some(instructions) => {
                    let ghost next = fed + instructions@;
                    let mut i: usize = 0;
                    while i < executions.len()
                        invariant
                            i <= executions@.len(),
                            executions@.len() == seeds@.len(),
                            next == fed + instructions@,
                            forall|k: int|
                                0 <= k < i ==> at::<D>(
                                    #[trigger] executions@[k],
                                    seeds@[k],
                                    branch_contents,
                                    next,
                                ),
                            forall|k: int|
                                i <= k < executions@.len() ==> at::<D>(
                                    #[trigger] executions@[k],
                                    seeds@[k],
                                    branch_contents,
                                    fed,
                                ),
                        decreases executions@.len() - i,
                    {
                        executions[i].prove(instructions.as_slice());
                        proof {
                            run_in_parts::<D>(
                                key_leaves(seeds@[i as int], D::PLAYERS as nat),
                                start(),
                                fed,
                                instructions@,
                            );
                        }
                        i = i + 1;
                    }
                    proof {
                        // a part that is not full is the last
                        at_end = instructions@.len() < BATCH_SIZE;
                        fed = next;
                    }
                },
            }
        }

        // collect the commitments
        proof {
            assert(program.remaining() =~= fed);
        }
        let mut results: Vec<(crate::crypto::Hash, Vec<crate::crypto::Hash>)> = Vec::with_capacity(
            seeds.len(),
        );
        for execution in it: executions
            invariant
                it.seq().len() == seeds@.len(),
                results@.len() == it.index(),
                forall|k: int|
                    0 <= k < it.seq().len() ==> at::<D>(
                        #[trigger] it.seq()[k],
                        seeds@[k],
                        branch_contents,
                        fed,
                    ),
                result_contents(results@) == repetitions::<D>(seeds@, branch_contents, fed).take(
                    it.index(),
                ),
        {
            let ghost before = result_contents(results@);
            results.push(execution.done());
            proof {
                let last = results@.last();
                assert(result_contents(results@) =~= before.push((last.0, last.1@)));
            }
        }
        proof {
            let all = repetitions::<D>(seeds@, branch_contents, fed);
            assert(all.take(seeds@.len() as int) =~= all);
            lemma_result_contents(results@, all);
        }
        results
    }

    /// Makes the proof, given the results of all repetitions, and keeps what
    /// the prover needs of the hidden ones.
    pub fn from_results(
        global: [u8; KEY_SIZE],
        roots: &Vec<[u8; KEY_SIZE]>,
        branches: Arc<Vec<Vec<D::Batch>>>,
        results: Vec<(crate::crypto::Hash, Vec<crate::crypto::Hash>)>,
    ) -> (made: (Self, PreprocessingOutput<D>))
        requires
            roots@.len() == D::PREPROCESSING_REPETITIONS,
            results@.len() == D::PREPROCESSING_REPETITIONS,
        ensures
            made.0.made_from(global, result_hashes(results@)),
            made.1.branches() == all_contents::<D>(branches@),
            made.1.runs() == Seq::new(
                D::ONLINE_REPETITIONS as nat,
                |j: int|
                    {
                        let i = challenge::<D>(result_hashes(results@))[j] as int;
                        run_model(roots@[i], results@[i].0, results@[i].1@)
                    },
            ),
            made.0.commitments().len() == D::ONLINE_REPETITIONS,
            made.1.runs().len() == D::ONLINE_REPETITIONS,
            forall|j: int|
                0 <= j < D::ONLINE_REPETITIONS ==> {
                    let i = challenge::<D>(result_hashes(results@))[j] as int;
                    &&& made.0.commitments()[j] == results@[i].0
                    &&& (#[trigger] made.1.runs()[j]).seed == roots@[i]
                    &&& made.1.runs()[j].union == results@[i].0
                    &&& made.1.runs()[j].commitments == results@[i].1@
                },
    {
        // send the commitments to the random oracle, receive the indexes to hide
        let mut hashes: Vec<crate::crypto::Hash> = Vec::with_capacity(results.len());
        let mut i: usize = 0;
        while i < results.len()
            invariant
                i <= results@.len(),
                hashes@ == result_hashes(results@).take(i as int),
            decreases results@.len() - i,
        {
            hashes.push(results[i].0);
            i = i + 1;
        }
        let ghost all_hashes = result_hashes(results@);
        let ghost all_results = results@;
        proof {
            assert(all_hashes.take(i as int) =~= all_hashes);
        }
        let hidden = draw_challenge::<D>(&hashes);

        // puncture the function at the hidden indexes
        // (implicitly: pass the randomness for all other executions to the verifier)
        let ghost keys = key_leaves(global, D::PREPROCESSING_REPETITIONS as nat);
        let mut tree = TreePRF::new(D::PREPROCESSING_REPETITIONS, global);
        proof {
            lemma_key_leaves_len(global, D::PREPROCESSING_REPETITIONS as nat);
            assert(tree.values() =~= punctured(keys, hidden@.take(0)));
        }
        let mut j: usize = 0;
        while j < hidden.len()
            invariant
                j <= hidden@.len(),
                keys.len() == D::PREPROCESSING_REPETITIONS,
                forall|k: int|
                    0 <= k < hidden@.len() ==> #[trigger] hidden@[k]
                        < D::PREPROCESSING_REPETITIONS,
                tree.size == D::PREPROCESSING_REPETITIONS,
                tree.root == KeyTree::Key(global).without_all(
                    D::PREPROCESSING_REPETITIONS as nat,
                    hidden@.take(j as int),
                ),
                tree.values() == punctured(keys, hidden@.take(j as int)),
            decreases hidden@.len() - j,
        {
            tree = tree.puncture(hidden[j]);
            proof {
                lemma_punctured_push(keys, hidden@.take(j as int), hidden@[j as int]);
                assert(hidden@.take(j + 1) =~= hidden@.take(j as int).push(hidden@[j as int]));
                assert(hidden@.take(j + 1).drop_last() =~= hidden@.take(j as int));
            }
            j = j + 1;
        }
        proof {
            assert(hidden@.take(j as int) =~= hidden@);
        }

        // extract the key material of the hidden repetitions
        // (returned to the prover for use in the online phase)
        let ghost expected = Seq::new(
            D::ONLINE_REPETITIONS as nat,
            |j: int|
                {
                    let i = challenge::<D>(all_hashes)[j] as int;
                    run_model(roots@[i], all_results[i].0, all_results[i].1@)
                },
        );
        let mut hidden_runs: Vec<Run> = Vec::with_capacity(D::ONLINE_REPETITIONS);
        let mut hidden_hashes: Vec<crate::crypto::Hash> = Vec::with_capacity(
            D::ONLINE_REPETITIONS,
        );
        let mut i: usize = 0;
        let mut j: usize = 0;
        for result in it: results
            invariant
                it.seq() == all_results,
                i == it.index(),
                j <= hidden@.len(),
                hidden@.len() == D::ONLINE_REPETITIONS,
                hidden@ == challenge::<D>(all_hashes),
                increasing(hidden@),
                forall|k: int|
                    0 <= k < hidden@.len() ==> #[trigger] hidden@[k]
                        < D::PREPROCESSING_REPETITIONS,
                all_hashes == result_hashes(all_results),
                all_results.len() == D::PREPROCESSING_REPETITIONS,
                roots@.len() == D::PREPROCESSING_REPETITIONS,
                expected == Seq::new(
                    D::ONLINE_REPETITIONS as nat,
                    |j: int|
                        {
                            let i = challenge::<D>(all_hashes)[j] as int;
                            run_model(roots@[i], all_results[i].0, all_results[i].1@)
                        },
                ),
                forall|k: int| j <= k < hidden@.len() ==> i <= #[trigger] hidden@[k],
                hidden_hashes@ == selected(all_hashes, hidden@).take(j as int),
                hidden_runs@.len() == j,
                forall|k: int| 0 <= k < j ==> (#[trigger] hidden_runs@[k])@ == expected[k],
        {
            if j < hidden.len() && hidden[j] == i {
                let (union, commitments) = result;

                // add to the preprocessing output
                hidden_runs.push(Run { seed: roots[i], union, commitments });

                // add to the preprocessing proof
                hidden_hashes.push(union);
                j = j + 1;
            }
            i = i + 1;
        }
        proof {
            assert(j == hidden@.len()) by {
                if j < hidden@.len() {
                    assert(i <= hidden@[j as int]);
                }
            }
        }
        let output = PreprocessingOutput { branches, hidden: hidden_runs };
        proof {
            assert(output.runs() =~= expected);
            assert(selected(all_hashes, hidden@).take(j as int) =~= selected(all_hashes, hidden@));
        }
        (Proof { hidden: hidden_hashes, random: tree, _ph: PhantomData }, output)
    }

    /// Create a new pre-processing proof.
    pub fn new<PI: Iterator<Item = Instruction<D::Scalar>>>(
        global: [u8; KEY_SIZE],
        branches: &[&[D::Scalar]],
        program: PI,
    ) -> (made: (Self, PreprocessingOutput<D>))
        requires
            branches@.len() > 0,
            program.obeys_prophetic_iter_laws(),
            program.decrease() is Some,
        ensures
            made_for(
                made.0,
                made.1,
                global,
                branch_elements(branches@),
                program.remaining(),
            ),
    {
        // pack branch scalars into batches for efficiency
        let batches = Arc::new(pack_branches::<D>(branches));

        // expand the global seed into per-repetition roots
        let roots = TreePRF::expand_full(D::PREPROCESSING_REPETITIONS, global);

        // compute the commitments
        proof {
            assert(all_contents::<D>(batches@).len() == branch_elements(branches@).len());
        }
        let results = Self::preprocess(roots.as_slice(), &batches, program);
        let ghost hashes = result_hashes(results@);
        proof {
            lemma_result_contents(
                results@,
                repetitions::<D>(roots@, all_contents::<D>(batches@), program.remaining()),
            );
            assert(hashes =~= all_hashes::<D>(
                global,
                branch_elements(branches@),
                program.remaining(),
            ));
            D::parameters();
            lemma_subset_of(
                oracle_answer(hashes),
                0,
                D::PREPROCESSING_REPETITIONS as nat,
                D::ONLINE_REPETITIONS as nat,
            );
        }
        let made = Self::from_results(global, &roots, batches, results);
        proof {
            assert(made.1.runs() =~= hidden_runs::<D>(
                global,
                branch_elements(branches@),
                program.remaining(),
            ));
        }
        made
    }

    /// What the shape of the tree says is known, has a value.
    proof fn lemma_known(self)
        ensures
            self.leaves().len() == D::PREPROCESSING_REPETITIONS,
            self.known() == known_of(self.leaves()),
    {
        let n = D::PREPROCESSING_REPETITIONS as nat;
        self.tree().root.lemma_leaves_known(n);
        assert(self.known() =~= known_of(self.leaves()));
    }
}

/// The proof and the output that belong to a global seed, branches and a
/// program.
pub open spec fn made_for<D: Domain>(
    p: Proof<D>,
    output: PreprocessingOutput<D>,
    global: [u8; KEY_SIZE],
    branches: Seq<Seq<D::Scalar>>,
    program: Seq<Instruction<D::Scalar>>,
) -> bool {
    &&& p.made_from(global, all_hashes::<D>(global, branches, program))
    &&& output.branches() == packed_all(branches, D::Batch::DIMENSION as nat)
    &&& output.runs() == hidden_runs::<D>(global, branches, program)
}

/// Separates the leaves: the values of those that are known, and the positions
/// of those that are not.
fn split(leaves: &Vec<Option<[u8; KEY_SIZE]>>) -> (parts: (Vec<[u8; KEY_SIZE]>, Vec<usize>))
    ensures
        parts.0@ == opened_keys(leaves@),
        parts.1@ == hidden_indices(known_of(leaves@)),
{
    let ghost known = known_of(leaves@);
    let mut opened: Vec<[u8; KEY_SIZE]> = Vec::new();
    let mut hidden: Vec<usize> = Vec::new();
    let mut i: usize = 0;
    while i < leaves.len()
        invariant
            i <= leaves@.len(),
            known == known_of(leaves@),
            opened@ == opened_keys(leaves@.take(i as int)),
            hidden@ == hidden_indices(known.take(i as int)),
        decreases leaves@.len() - i,
    {
        match leaves[i] {
            Some(key) => {
                opened.push(key);
            },
            None => {
                hidden.push(i);
            },
        }
        proof {
            assert(leaves@.take(i + 1).drop_last() =~= leaves@.take(i as int));
            assert(known.take(i + 1).drop_last() =~= known.take(i as int));
        }
        i = i + 1;
    }
    proof {
        assert(leaves@.take(i as int) =~= leaves@);
        assert(known.take(i as int) =~= known);
    }
    (opened, hidden)
}

} // verus!
