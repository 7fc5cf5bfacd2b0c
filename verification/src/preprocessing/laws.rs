//! What holds of proofs, packed branches and tapes as a whole.

use vstd::prelude::*;
use vstd::arithmetic::div_mod::lemma_fundamental_div_mod;
use vstd::arithmetic::div_mod::lemma_fundamental_div_mod_converse;
use vstd::arithmetic::power2::pow2;
use vstd::bytes::spec_u64_from_le_bytes;
use vstd::bytes::spec_u64_to_le_bytes;

use crate::algebra::gf2::words_hold_binary_digits;
use crate::algebra::gf2::BitBatch;
use crate::algebra::gf2::BitSharing8;
use crate::algebra::gf2::GF2P8;
use crate::algebra::Domain;
use crate::algebra::RingElement;
use crate::algebra::RingModule;
use crate::algebra::Samplable;
use crate::consts::BATCH_SIZE;
use crate::consts::LABEL_RNG_OPEN_PREPROCESSING;
use crate::consts::LABEL_SCOPE_AGGREGATE_COMMIT;
use crate::crypto::derived_key;
use crate::crypto::joined;
use crate::crypto::joined_holds_every_hash;
use crate::crypto::keyed_digest;
use crate::crypto::lemma_joined_len;
use crate::crypto::prf::key_along;
use crate::crypto::prf::key_leaves;
use crate::crypto::prf::leaf_is_derived_along_its_path;
use crate::crypto::prf::lemma_key_leaves_len;
use crate::crypto::prf::path_to;
use crate::crypto::KeyTree;
use crate::crypto::KEY_SIZE;
use crate::crypto::PRG;
use crate::instruction::Instruction;
use crate::preprocessing::execution::parts_run_as_one;
use crate::preprocessing::execution::repetition;
use crate::preprocessing::execution::run;
use crate::preprocessing::execution::run_parts;
use crate::preprocessing::execution::start;
use crate::preprocessing::opening::hidden_indices;
use crate::preprocessing::opening::hidden_positions_are_those_not_known;
use crate::preprocessing::opening::interleaved;
use crate::preprocessing::opening::known_of;
use crate::preprocessing::opening::lemma_hidden_before;
use crate::preprocessing::opening::lemma_opened_key;
use crate::preprocessing::opening::lemma_punctured_hidden;
use crate::preprocessing::opening::lists;
use crate::preprocessing::opening::names_those;
use crate::preprocessing::opening::opened_key_is_that_of_its_leaf;
use crate::preprocessing::opening::opened_keys;
use crate::preprocessing::opening::positions_are_named_in_one_way;
use crate::preprocessing::opening::selected;
use crate::preprocessing::opening::values_go_to_their_positions;
use crate::preprocessing::packing::packed;
use crate::preprocessing::packing::packed_all;
use crate::preprocessing::proving::all_hashes;
use crate::preprocessing::proving::challenge;
use crate::preprocessing::proving::hidden_runs;
use crate::preprocessing::proving::oracle_answer;
use crate::preprocessing::proving::repetition_hashes;
use crate::preprocessing::proving::Proof;
use crate::preprocessing::proving::made_for;
use crate::preprocessing::proving::repetitions;
use crate::preprocessing::proving::PreprocessingOutput;
use crate::preprocessing::schedule::every_part_is_fed_and_collected;
use crate::preprocessing::schedule::few_parts_under_way;
use crate::preprocessing::schedule::moment;
use crate::preprocessing::schedule::Schedule;
use crate::preprocessing::schedule::AHEAD;
use crate::preprocessing::shares::after;
use crate::preprocessing::shares::next_multiple;
use crate::preprocessing::shares::seeded_all;
use crate::preprocessing::shares::share_holds_one_element_of_every_player;
use crate::preprocessing::shares::tape_belongs_to_its_seed;
use crate::preprocessing::shares::tape_share;
use crate::util::at_most;
use crate::util::increasing;
use crate::util::lemma_subset_of;
use crate::util::number_is_picked_by_its_draw;

verus! {

/// The oracle hides the required number of repetitions, and lists them in
/// increasing order.
pub proof fn challenge_is_a_subset<D: Domain>(hashes: Seq<crate::crypto::Hash>)
    ensures
        challenge::<D>(hashes).len() == D::ONLINE_REPETITIONS,
        increasing(challenge::<D>(hashes)),
        forall|j: int|
            0 <= j < D::ONLINE_REPETITIONS ==> #[trigger] challenge::<D>(hashes)[j]
                < D::PREPROCESSING_REPETITIONS,
{
    D::parameters();
    lemma_subset_of(
        oracle_answer(hashes),
        0,
        D::PREPROCESSING_REPETITIONS as nat,
        D::ONLINE_REPETITIONS as nat,
    );
}

/// The oracle hears every byte of every commitment, in order, and answers under
/// labels of its own.
pub proof fn oracle_hears_every_commitment(
    hashes: Seq<crate::crypto::Hash>,
    message: Seq<u8>,
)
    requires
        message.len() == 32 * hashes.len(),
        forall|i: int, k: int|
            #![trigger hashes[i].bytes@[k]]
            0 <= i < hashes.len() && 0 <= k < 32 ==> message[32 * i + k] == hashes[i].bytes@[k],
    ensures
        oracle_answer(hashes) == (PRG {
            key: derived_key(
                LABEL_RNG_OPEN_PREPROCESSING@,
                derived_key(LABEL_SCOPE_AGGREGATE_COMMIT@, message)@,
            ),
            counter: 0,
        }),
{
    lemma_joined_len(hashes);
    assert forall|x: int| 0 <= x < message.len() implies message[x] == joined(hashes)[x] by {
        let (i, k) = (x / 32, x % 32);
        joined_holds_every_hash(hashes, i, k);
        assert(hashes[i].bytes@[k] == message[32 * i + k]);
    }
    assert(message =~= joined(hashes));
}

/// With `c` of the repetitions before it hidden, repetition `i` is hidden just if
/// draw number `i` from the answer of the oracle, taken below the number of
/// repetitions that are left, falls below the number that is left to hide.
pub proof fn repetition_is_hidden_by_its_draw<D: Domain>(
    hashes: Seq<crate::crypto::Hash>,
    i: nat,
    c: nat,
)
    requires
        i < D::PREPROCESSING_REPETITIONS,
        c <= D::ONLINE_REPETITIONS,
        c > 0 ==> challenge::<D>(hashes)[c - 1] < i,
        c < D::ONLINE_REPETITIONS ==> i <= challenge::<D>(hashes)[c as int],
    ensures
        lists(challenge::<D>(hashes), i as int) == (oracle_answer(hashes).skip(i).number_below(
            (D::PREPROCESSING_REPETITIONS - i) as nat,
        ) < D::ONLINE_REPETITIONS - c),
{
    D::parameters();
    number_is_picked_by_its_draw(
        oracle_answer(hashes),
        D::PREPROCESSING_REPETITIONS as nat,
        D::ONLINE_REPETITIONS as nat,
        i,
        c,
    );
    let hidden = challenge::<D>(hashes);
    if hidden.contains(i as usize) {
        let j = choose|j: int| 0 <= j < hidden.len() && hidden[j] == i as usize;
        assert(hidden[j] == i);
    }
    if lists(hidden, i as int) {
        let j = choose|j: int| 0 <= j < hidden.len() && hidden[j] == i;
        assert(hidden[j] == i as usize);
    }
}

/// The decision on a proof follows the oracle: with the commitments of the
/// opened repetitions at the opened positions, and those of the proof at the
/// hidden ones, the proof is accepted just if the oracle hides the positions
/// that the proof hides.
pub proof fn decision_follows_the_oracle<D: Domain>(
    p: Proof<D>,
    opened: Seq<crate::crypto::Hash>,
    opened_at: Seq<usize>,
    hidden_at: Seq<usize>,
    hashes: Seq<crate::crypto::Hash>,
)
    requires
        p.commitments().len() >= D::ONLINE_REPETITIONS,
        names_those(opened_at, p.leaves().map_values(|leaf: Option<[u8; 32]>| leaf is Some), true),
        names_those(hidden_at, p.leaves().map_values(|leaf: Option<[u8; 32]>| leaf is Some), false),
        hashes.len() == D::PREPROCESSING_REPETITIONS,
        forall|j: int|
            0 <= j < opened_at.len() ==> hashes[#[trigger] opened_at[j] as int] == opened[j],
        forall|j: int|
            0 <= j < hidden_at.len() && j < p.commitments().len() ==> hashes[
                #[trigger] hidden_at[j] as int
            ] == p.commitments()[j],
    ensures
        p.hides_enough() == (hidden_at.len() == D::ONLINE_REPETITIONS),
        p.accepts_hashes(opened) == (challenge::<D>(hashes) == hidden_at),
{
    let n = D::PREPROCESSING_REPETITIONS as nat;
    let known = p.known();
    p.tree().root.lemma_leaves_known(n);
    assert(known =~= p.leaves().map_values(|leaf: Option<[u8; 32]>| leaf is Some));
    hidden_positions_are_those_not_known(known);
    positions_are_named_in_one_way(hidden_at, hidden_indices(known), known, false);
    challenge_is_a_subset::<D>(hashes);
    if hidden_at.len() == D::ONLINE_REPETITIONS {
        let merged = interleaved(known, opened, p.commitments());
        assert forall|i: int| 0 <= i < n implies merged[i] == hashes[i] by {
            if known[i] {
                assert(lists(opened_at, i));
                let j = choose|j: int| 0 <= j < opened_at.len() && opened_at[j] == i;
                values_go_to_their_positions(
                    known,
                    opened,
                    p.commitments(),
                    opened_at,
                    hidden_at,
                    j,
                );
            } else {
                assert(lists(hidden_at, i));
                let j = choose|j: int| 0 <= j < hidden_at.len() && hidden_at[j] == i;
                values_go_to_their_positions(
                    known,
                    opened,
                    p.commitments(),
                    opened_at,
                    hidden_at,
                    j,
                );
            }
        }
        assert(merged =~= hashes);
    }
}

/// A proof is accepted for a program just if it hides what the oracle hides,
/// when the oracle is given, for every opened repetition, the commitment that
/// its root seed gives when it is executed again, and for the hidden ones, in
/// order, the commitments of the proof.
pub proof fn accepted_just_if_the_oracle_agrees<D: Domain>(
    p: Proof<D>,
    branches: Seq<Seq<D::Scalar>>,
    program: Seq<Instruction<D::Scalar>>,
    hidden_at: Seq<usize>,
    hashes: Seq<crate::crypto::Hash>,
)
    requires
        p.commitments().len() >= D::ONLINE_REPETITIONS,
        names_those(hidden_at, p.leaves().map_values(|leaf: Option<[u8; 32]>| leaf is Some), false),
        hashes.len() == D::PREPROCESSING_REPETITIONS,
        forall|i: int|
            0 <= i < D::PREPROCESSING_REPETITIONS && p.leaves()[i] is Some ==> #[trigger] hashes[i]
                == repetition::<D>(
                p.leaves()[i]->0,
                packed_all(branches, D::Batch::DIMENSION as nat),
                program,
            ).0,
        forall|j: int|
            0 <= j < hidden_at.len() && j < p.commitments().len() ==> hashes[
                #[trigger] hidden_at[j] as int
            ] == p.commitments()[j],
    ensures
        p.accepts(branches, program) == (challenge::<D>(hashes) == hidden_at),
{
    let n = D::PREPROCESSING_REPETITIONS as nat;
    let leaves = p.leaves();
    let known = known_of(leaves);
    p.tree().root.lemma_leaves_known(n);
    assert(known =~= leaves.map_values(|leaf: Option<[u8; 32]>| leaf is Some));
    let unknown = Seq::new(n, |i: int| !known[i]);
    let opened_at = hidden_indices(unknown);
    hidden_positions_are_those_not_known(unknown);
    assert(names_those(opened_at, known, true)) by {
        assert forall|i: int| 0 <= i < known.len() implies #[trigger] lists(opened_at, i) == (
        known[i] == true) by {
            assert(unknown[i] == !known[i]);
        }
    }
    let opened = repetition_hashes::<D>(
        opened_keys(leaves),
        packed_all(branches, D::Batch::DIMENSION as nat),
        program,
    );
    assert forall|j: int| 0 <= j < opened_at.len() implies hashes[#[trigger] opened_at[j] as int]
        == opened[j] by {
        opened_key_is_that_of_its_leaf(leaves, opened_at, j);
    }
    decision_follows_the_oracle::<D>(p, opened, opened_at, hidden_at, hashes);
}

/// Where a proof is accepted, each repetition is hidden in the proof just if the
/// oracle hides it.
pub proof fn accepted_proof_hides_what_the_oracle_hides<D: Domain>(
    p: Proof<D>,
    branches: Seq<Seq<D::Scalar>>,
    program: Seq<Instruction<D::Scalar>>,
    i: int,
)
    requires
        p.accepts(branches, program),
        0 <= i < D::PREPROCESSING_REPETITIONS,
    ensures
        (p.leaves()[i] is None) == lists(
            challenge::<D>(
                interleaved(
                    p.known(),
                    repetition_hashes::<D>(
                        opened_keys(p.leaves()),
                        packed_all(branches, D::Batch::DIMENSION as nat),
                        program,
                    ),
                    p.commitments(),
                ),
            ),
            i,
        ),
{
    p.tree().root.lemma_leaves_known(D::PREPROCESSING_REPETITIONS as nat);
    hidden_positions_are_those_not_known(p.known());
}

/// The same holds where a proof is accepted for given commitments of the opened
/// repetitions.
pub proof fn accepted_hashes_hide_what_the_oracle_hides<D: Domain>(
    p: Proof<D>,
    opened: Seq<crate::crypto::Hash>,
    i: int,
)
    requires
        p.accepts_hashes(opened),
        0 <= i < D::PREPROCESSING_REPETITIONS,
    ensures
        (p.leaves()[i] is None) == lists(
            challenge::<D>(interleaved(p.known(), opened, p.commitments())),
            i,
        ),
{
    p.tree().root.lemma_leaves_known(D::PREPROCESSING_REPETITIONS as nat);
    hidden_positions_are_those_not_known(p.known());
}

/// The commitment at every position is that of the repetition at this position:
/// the commitments to all repetitions of a global seed are those that the root
/// seeds give, where each root seed is derived along its own path.
pub proof fn every_repetition_is_committed_to<D: Domain>(
    global: [u8; KEY_SIZE],
    branches: Seq<Seq<D::Scalar>>,
    program: Seq<Instruction<D::Scalar>>,
    i: nat,
)
    requires
        i < D::PREPROCESSING_REPETITIONS,
    ensures
        all_hashes::<D>(global, branches, program).len() == D::PREPROCESSING_REPETITIONS,
        all_hashes::<D>(global, branches, program)[i as int] == repetition::<D>(
            key_along(global, path_to(D::PREPROCESSING_REPETITIONS as nat, i)),
            packed_all(branches, D::Batch::DIMENSION as nat),
            program,
        ).0,
{
    leaf_is_derived_along_its_path(global, D::PREPROCESSING_REPETITIONS as nat, i);
}

/// The prover can execute every hidden repetition again: it keeps the root seed
/// of just this repetition, and with it goes what the repetition commits to, of
/// which the proof has the commitment and not the seed.
pub proof fn kept_runs_execute_again<D: Domain>(
    p: Proof<D>,
    output: PreprocessingOutput<D>,
    global: [u8; KEY_SIZE],
    branches: Seq<Seq<D::Scalar>>,
    program: Seq<Instruction<D::Scalar>>,
    hashes: Seq<crate::crypto::Hash>,
    j: int,
)
    requires
        made_for(p, output, global, branches, program),
        hashes.len() == D::PREPROCESSING_REPETITIONS,
        forall|i: int|
            0 <= i < D::PREPROCESSING_REPETITIONS ==> #[trigger] hashes[i] == repetition::<D>(
                key_along(global, path_to(D::PREPROCESSING_REPETITIONS as nat, i as nat)),
                packed_all(branches, D::Batch::DIMENSION as nat),
                program,
            ).0,
        0 <= j < D::ONLINE_REPETITIONS,
    ensures
        ({
            let n = D::PREPROCESSING_REPETITIONS as nat;
            let i = challenge::<D>(hashes)[j] as nat;
            let kept = output.runs()[j];
            let packed_branches = packed_all(branches, D::Batch::DIMENSION as nat);
            &&& output.runs().len() == D::ONLINE_REPETITIONS
            &&& p.commitments().len() == D::ONLINE_REPETITIONS
            &&& i < n
            &&& kept.seed == key_leaves(global, n)[i as int]
            &&& kept.seed == key_along(global, path_to(n, i))
            &&& repetition::<D>(kept.seed, packed_branches, program) == (
                kept.union,
                kept.commitments,
            )
            &&& p.commitments()[j] == kept.union
            &&& p.leaves()[i as int] is None
            &&& output.branches() == packed_branches
        }),
{
    let n = D::PREPROCESSING_REPETITIONS as nat;
    let all = all_hashes::<D>(global, branches, program);
    lemma_key_leaves_len(global, n);
    assert forall|i: int| 0 <= i < n implies hashes[i] == all[i] by {
        every_repetition_is_committed_to::<D>(global, branches, program, i as nat);
    }
    assert(hashes =~= all);
    challenge_is_a_subset::<D>(hashes);
    let i = challenge::<D>(hashes)[j] as nat;
    leaf_is_derived_along_its_path(global, n, i);
    proof_commits_to_runs::<D>(p, global, branches, program, j);
    proof_opens_all_but_hidden::<D>(p, global, all, i as int);
    assert(lists(challenge::<D>(hashes), i as int));
}

/// A generator that gave `n` batches of bits stands behind `n` blocks.
pub proof fn batches_of_bits_are_blocks(prg: PRG, n: nat)
    ensures
        after::<BitBatch>(prg, n) == prg.skip(n),
    decreases n,
{
    if n > 0 {
        batches_of_bits_are_blocks(prg, (n - 1) as nat);
    }
}

/// Over bits, sharing number `64 * q + r` of a tape holds, for every player,
/// binary digit `r` of the number in the first 8 bytes of block `q` of the stream
/// that belongs to the seed of this player.
pub proof fn shares_of_bits_are_read_from_the_stream(
    context: Seq<char>,
    seeds: Seq<[u8; KEY_SIZE]>,
    q: nat,
    r: nat,
    p: int,
)
    requires
        r < 64,
        0 <= p < seeds.len(),
    ensures
        ({
            let block = keyed_digest(
                derived_key(context, seeds[p]@)@,
                spec_u64_to_le_bytes((q % 0x1_0000_0000_0000_0000) as u64),
            );
            let word = spec_u64_from_le_bytes(block@.subrange(0, 8));
            tape_share::<GF2P8>(seeded_all(context, seeds), 64 * q + r)[p].0 == ((word as nat
                / pow2(r)) % 2 == 1)
        }),
{
    let tape = seeded_all(context, seeds);
    GF2P8::values();
    tape_belongs_to_its_seed(context, seeds, p);
    share_holds_one_element_of_every_player::<GF2P8>(tape, q, r, p);
    batches_of_bits_are_blocks(tape[p], q);
    PRG::stream_of_key(derived_key(context, seeds[p]@), q);
    words_hold_binary_digits(BitBatch::sampled(tape[p].skip(q)), BitSharing8(0), r);
}

/// A proof that was made for a program with some branches is accepted for the
/// same program with the same branches, whatever the global seed. Verifying it
/// is possible: it holds a commitment for every hidden repetition.
pub proof fn honest_proof_is_accepted<D: Domain>(
    p: Proof<D>,
    global: [u8; KEY_SIZE],
    branches: Seq<Seq<D::Scalar>>,
    program: Seq<Instruction<D::Scalar>>,
)
    requires
        p.made_from(global, all_hashes::<D>(global, branches, program)),
    ensures
        p.commitments().len() == D::ONLINE_REPETITIONS,
        p.hides_enough(),
        p.accepts(branches, program),
{
    let n = D::PREPROCESSING_REPETITIONS as nat;
    let roots = key_leaves(global, n);
    let hashes = all_hashes::<D>(global, branches, program);
    let hidden = challenge::<D>(hashes);
    let leaves = p.leaves();
    let known = p.known();
    lemma_key_leaves_len(global, n);
    challenge_is_a_subset::<D>(hashes);
    p.tree().root.lemma_leaves_known(n);
    assert(known =~= known_of(leaves));
    lemma_punctured_hidden(roots, hidden);
    let opened = repetition_hashes::<D>(
        opened_keys(leaves),
        packed_all(branches, D::Batch::DIMENSION as nat),
        program,
    );
    assert forall|i: int| 0 <= i < n implies interleaved(known, opened, p.commitments())[i]
        == hashes[i] by {
        lemma_hidden_before(known, i);
        if known[i] {
            lemma_opened_key(leaves, i);
        }
    }
    assert(interleaved(known, opened, p.commitments()) =~= hashes);
}

/// The proof commits to just the runs that the prover keeps.
pub proof fn proof_commits_to_runs<D: Domain>(
    p: Proof<D>,
    global: [u8; KEY_SIZE],
    branches: Seq<Seq<D::Scalar>>,
    program: Seq<Instruction<D::Scalar>>,
    j: int,
)
    requires
        p.made_from(global, all_hashes::<D>(global, branches, program)),
        0 <= j < D::ONLINE_REPETITIONS,
    ensures
        p.commitments().len() == hidden_runs::<D>(global, branches, program).len(),
        p.commitments()[j] == hidden_runs::<D>(global, branches, program)[j].union,
{
    let hashes = all_hashes::<D>(global, branches, program);
    lemma_key_leaves_len(global, D::PREPROCESSING_REPETITIONS as nat);
    challenge_is_a_subset::<D>(hashes);
}

/// The proof opens the root seed of a repetition just where the oracle does
/// not hide it.
pub proof fn proof_opens_all_but_hidden<D: Domain>(
    p: Proof<D>,
    global: [u8; KEY_SIZE],
    hashes: Seq<crate::crypto::Hash>,
    i: int,
)
    requires
        p.made_from(global, hashes),
        0 <= i < D::PREPROCESSING_REPETITIONS,
    ensures
        p.leaves()[i] == if lists(challenge::<D>(hashes), i) {
            None
        } else {
            Some(key_leaves(global, D::PREPROCESSING_REPETITIONS as nat)[i])
        },
{
    lemma_key_leaves_len(global, D::PREPROCESSING_REPETITIONS as nat);
}

/// The tree of a made proof has a key over some leaves wherever it has a key:
/// no key is stored that opens nothing.
pub proof fn made_tree_has_no_idle_key<D: Domain>(
    p: Proof<D>,
    global: [u8; KEY_SIZE],
    hashes: Seq<crate::crypto::Hash>,
)
    requires
        p.made_from(global, hashes),
        D::PREPROCESSING_REPETITIONS > 0,
    ensures
        p.tree().wf(),
        !p.tree().root.has_idle_key(D::PREPROCESSING_REPETITIONS as nat),
{
    let n = D::PREPROCESSING_REPETITIONS as nat;
    challenge_is_a_subset::<D>(hashes);
    KeyTree::Key(global).lemma_without_all_fits(n, challenge::<D>(hashes));
    p.tree().root.lemma_fits_no_idle_key(n);
}

/// In the tree of a made proof a key stands over the leaf of a repetition just
/// where the oracle does not hide it: no key is stored from which a hidden root
/// seed is derived.
pub proof fn made_tree_has_no_key_over_hidden<D: Domain>(
    p: Proof<D>,
    global: [u8; KEY_SIZE],
    hashes: Seq<crate::crypto::Hash>,
    i: nat,
)
    requires
        p.made_from(global, hashes),
        i < D::PREPROCESSING_REPETITIONS,
    ensures
        p.tree().root.covers(D::PREPROCESSING_REPETITIONS as nat, i) == !lists(
            challenge::<D>(hashes),
            i as int,
        ),
{
    let n = D::PREPROCESSING_REPETITIONS as nat;
    proof_opens_all_but_hidden::<D>(p, global, hashes, i as int);
    p.tree().root.lemma_leaves_known(n);
    p.tree().root.lemma_known_covers(n, i);
}

/// Two calls that make a proof of the same global seed, branches and program
/// give equal proofs and equal outputs.
pub proof fn equal_calls_make_equal_proofs<D: Domain>(
    p: Proof<D>,
    p_output: PreprocessingOutput<D>,
    q: Proof<D>,
    q_output: PreprocessingOutput<D>,
    global: [u8; KEY_SIZE],
    branches: Seq<Seq<D::Scalar>>,
    program: Seq<Instruction<D::Scalar>>,
)
    requires
        made_for(p, p_output, global, branches, program),
        made_for(q, q_output, global, branches, program),
    ensures
        p.commitments() == q.commitments(),
        p.tree() == q.tree(),
        p_output.branches() == q_output.branches(),
        p_output.runs() == q_output.runs(),
{
}

/// Each result depends on its own seed only: the results of a list of some of
/// the seeds are the results of these seeds among those of all.
pub proof fn each_result_has_its_own_seed<D: Domain>(
    seeds: Seq<[u8; KEY_SIZE]>,
    indices: Seq<usize>,
    branches: Seq<Seq<Seq<D::Scalar>>>,
    program: Seq<Instruction<D::Scalar>>,
)
    requires
        forall|j: int| 0 <= j < indices.len() ==> #[trigger] indices[j] < seeds.len(),
    ensures
        repetitions::<D>(selected(seeds, indices), branches, program) == selected(
            repetitions::<D>(seeds, branches, program),
            indices,
        ),
{
    assert(repetitions::<D>(selected(seeds, indices), branches, program) =~= selected(
        repetitions::<D>(seeds, branches, program),
        indices,
    ));
}

/// The result of one seed among many is its result alone.
pub proof fn result_of_one_seed<D: Domain>(
    seeds: Seq<[u8; KEY_SIZE]>,
    i: int,
    branches: Seq<Seq<Seq<D::Scalar>>>,
    program: Seq<Instruction<D::Scalar>>,
)
    requires
        0 <= i < seeds.len(),
    ensures
        repetitions::<D>(seeds, branches, program)[i] == repetitions::<D>(
            seq![seeds[i]],
            branches,
            program,
        )[0],
{
}

/// The parts in which a program is read.
pub open spec fn parts_of<T>(program: Seq<T>) -> Seq<Seq<T>>
    decreases program.len(),
{
    if program.len() == 0 {
        Seq::empty()
    } else {
        let len = at_most(BATCH_SIZE as nat, program.len());
        seq![program.take(len)] + parts_of(program.skip(len))
    }
}

/// The parts of a program make up the program.
pub proof fn parts_make_the_program<T>(program: Seq<T>)
    ensures
        parts_of(program).flatten() == program,
    decreases program.len(),
{
    if program.len() > 0 {
        let len = at_most(BATCH_SIZE as nat, program.len());
        let (first, rest) = (program.take(len), program.skip(len));
        parts_make_the_program(rest);
        assert(parts_of(program).first() == first);
        assert(parts_of(program).drop_first() =~= parts_of(rest));
        assert(first + rest =~= program);
    }
}

/// The number of instructions in the first `k` parts of a program.
pub open spec fn instructions_in<T>(program: Seq<T>, k: nat) -> nat {
    parts_of(program).take(k as int).flatten().len()
}

/// A part has no more instructions than are read at a time.
proof fn lemma_part_len<T>(program: Seq<T>, k: int)
    requires
        0 <= k < parts_of(program).len(),
    ensures
        parts_of(program)[k].len() <= BATCH_SIZE,
    decreases program.len(),
{
    let len = at_most(BATCH_SIZE as nat, program.len());
    if k > 0 {
        lemma_part_len(program.skip(len), k - 1);
    }
}

/// The parts from `low` to `high` have at most as many instructions as that
/// many full parts.
proof fn lemma_instructions_between<T>(program: Seq<T>, low: nat, high: nat)
    requires
        low <= high <= parts_of(program).len(),
    ensures
        instructions_in(program, high) <= instructions_in(program, low) + (high - low)
            * BATCH_SIZE,
    decreases high - low,
{
    if low < high {
        let parts = parts_of(program);
        let last = (high - 1) as nat;
        lemma_instructions_between(program, low, last);
        lemma_part_len(program, last as int);
        assert(parts.take(high as int) =~= parts.take(last as int).push(parts[last as int]));
        parts.take(last as int).lemma_flatten_push(parts[last as int]);
    }
}

/// A program is streamed: when it is fed as the schedule says, at every moment
/// at most `AHEAD` times `BATCH_SIZE` of the instructions that were taken from
/// it are not yet finished by all workers.
pub proof fn few_instructions_under_way<T>(program: Seq<T>, actions: nat)
    ensures
        instructions_in(program, moment(parts_of(program).len(), actions).fed)
            <= instructions_in(program, moment(parts_of(program).len(), actions).collected)
            + AHEAD * BATCH_SIZE,
{
    let m = moment(parts_of(program).len(), actions);
    few_parts_under_way(parts_of(program).len(), actions);
    lemma_instructions_between(program, m.collected, m.fed);
}

/// A worker that executes the parts of a program as the schedule feeds them has
/// executed the program when the schedule finishes.
pub proof fn scheduled_worker_runs_the_program<D: Domain>(
    seeds: Seq<[u8; KEY_SIZE]>,
    program: Seq<Instruction<D::Scalar>>,
)
    ensures
        run_parts::<D>(seeds, start(), Schedule::initial().outcome(parts_of(program)).0)
            == run::<D>(seeds, start(), program),
{
    every_part_is_fed_and_collected(parts_of(program));
    parts_run_as_one::<D>(seeds, start(), parts_of(program));
    parts_make_the_program(program);
}

/// Every element of a branch stands in the packed branch, at the place that its
/// number gives.
pub proof fn packed_element<S: RingElement>(branch: Seq<S>, d: nat, j: nat)
    requires
        d > 0,
        j < branch.len(),
    ensures
        j / d < packed(branch, d).len(),
        packed(branch, d)[(j / d) as int][(j % d) as int] == branch[j as int],
{
    let m = (branch.len() - 1) as nat;
    lemma_fundamental_div_mod(j as int, d as int);
    lemma_fundamental_div_mod(m as int, d as int);
    let (q, r) = (j / d, j % d);
    let (last, rest) = (m / d, m % d);
    assert(q <= last) by (nonlinear_arith)
        requires
            j == d * q + r,
            m == d * last + rest,
            j <= m,
            rest < d,
            0 <= r,
    ;
    assert(q * d + r == j) by (nonlinear_arith)
        requires
            j == d * q + r,
    ;
}

/// Branches of one length that are packed alike are alike.
pub proof fn packing_loses_nothing<S: RingElement>(a: Seq<S>, b: Seq<S>, d: nat)
    requires
        d > 0,
        a.len() == b.len(),
        packed(a, d) == packed(b, d),
    ensures
        a == b,
{
    assert forall|j: int| 0 <= j < a.len() implies a[j] == b[j] by {
        packed_element(a, d, j as nat);
        packed_element(b, d, j as nat);
    }
    assert(a =~= b);
}

/// Dropping the rest of the batches ends at the start of a batch, drops less
/// than one batch, and drops nothing where the generator was empty.
pub proof fn empty_ends_a_batch(n: nat, d: nat)
    requires
        d > 0,
    ensures
        next_multiple(n, d) % d == 0,
        n <= next_multiple(n, d) < n + d,
        n % d == 0 ==> next_multiple(n, d) == n,
        next_multiple(next_multiple(n, d), d) == next_multiple(n, d),
{
    lemma_fundamental_div_mod(n as int, d as int);
    let (q, r) = (n / d, n % d);
    if r != 0 {
        assert((q + 1) * d == d * q + d) by (nonlinear_arith);
        lemma_fundamental_div_mod_converse(((q + 1) * d) as int, d as int, (q + 1) as int, 0);
    }
}

/// Different lists of commitments make different messages to the oracle.
pub proof fn joined_tells_lists_apart(a: Seq<crate::crypto::Hash>, b: Seq<crate::crypto::Hash>)
    requires
        joined(a) == joined(b),
    ensures
        a == b,
    decreases a.len(),
{
    lemma_joined_len(a);
    lemma_joined_len(b);
    if a.len() > 0 {
        let (x, y) = (joined(a.drop_last()), joined(b.drop_last()));
        lemma_joined_len(a.drop_last());
        lemma_joined_len(b.drop_last());
        assert(x =~= joined(a).take(x.len() as int));
        assert(y =~= joined(b).take(y.len() as int));
        joined_tells_lists_apart(a.drop_last(), b.drop_last());
        assert(a.last().bytes@ =~= joined(a).skip(x.len() as int));
        assert(b.last().bytes@ =~= joined(b).skip(y.len() as int));
        assert(a.last().bytes =~= b.last().bytes);
        assert(a =~= a.drop_last().push(a.last()));
        assert(b =~= b.drop_last().push(b.last()));
    } else {
        assert(a =~= b);
    }
}

} // verus!
