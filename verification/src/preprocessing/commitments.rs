//! What holds of the instructions of a repetition, and of what it commits to.

use vstd::prelude::*;

use crate::algebra::plus_cancels;
use crate::algebra::sum;
use crate::algebra::sum_of_multiple;
use crate::algebra::sum_of_vector_sum;
use crate::algebra::Domain;
use crate::algebra::RingElement;
use crate::consts::CONTEXT_RNG_BEAVER;
use crate::consts::CONTEXT_RNG_BRANCH_MASK;
use crate::consts::CONTEXT_RNG_BRANCH_PERMUTE;
use crate::consts::CONTEXT_RNG_INPUT_MASK;
use crate::crypto::derived_key;
use crate::crypto::digest;
use crate::crypto::joined;
use crate::crypto::joined_holds_every_hash;
use crate::crypto::lemma_joined_len;
use crate::crypto::prf::key_along;
use crate::crypto::prf::key_leaves;
use crate::crypto::prf::leaf_is_derived_along_its_path;
use crate::crypto::prf::lemma_key_leaves_len;
use crate::crypto::prf::path_to;
use crate::crypto::KEY_SIZE;
use crate::crypto::PRG;
use crate::instruction::Instruction;
use crate::preprocessing::execution::branch_hash;
use crate::preprocessing::execution::branch_hashes;
use crate::preprocessing::execution::correction_completes_product;
use crate::preprocessing::execution::element_bytes;
use crate::preprocessing::execution::mask_of;
use crate::preprocessing::execution::masked;
use crate::preprocessing::execution::player_commitments;
use crate::preprocessing::execution::repetition;
use crate::preprocessing::execution::run;
use crate::preprocessing::execution::start;
use crate::preprocessing::execution::step;
use crate::preprocessing::execution::Progress;
use crate::preprocessing::laws::joined_tells_lists_apart;
use crate::preprocessing::shares::seeded_all;
use crate::preprocessing::shares::tape_share;
use crate::util::identity;
use crate::util::shuffle_is_a_permutation;
use crate::util::shuffle_keeps_values;
use crate::util::shuffled;

verus! {

/// The generators of a tape are derived from the seeds of the players, each
/// from its own, under a context.
pub open spec fn is_tape(tape: Seq<PRG>, context: Seq<char>, seeds: Seq<[u8; KEY_SIZE]>) -> bool {
    &&& tape.len() == seeds.len()
    &&& forall|p: int|
        0 <= p < seeds.len() ==> #[trigger] tape[p] == (PRG {
            key: derived_key(context, seeds[p]@),
            counter: 0,
        })
}

proof fn lemma_is_tape(tape: Seq<PRG>, context: Seq<char>, seeds: Seq<[u8; KEY_SIZE]>)
    requires
        is_tape(tape, context, seeds),
    ensures
        tape == seeded_all(context, seeds),
{
    assert(tape =~= seeded_all(context, seeds));
}

/// An instruction leaves the mask of every wire alone that it does not write.
pub proof fn other_wires_keep_their_masks<D: Domain>(
    seeds: Seq<[u8; KEY_SIZE]>,
    s: Progress<D::Scalar>,
    instruction: Instruction<D::Scalar>,
    wire: usize,
)
    requires
        match instruction {
            Instruction::AddConst(dst, _, _) => wire != dst,
            Instruction::MulConst(dst, _, _) => wire != dst,
            Instruction::Add(dst, _, _) => wire != dst,
            Instruction::Mul(dst, _, _) => wire != dst,
            Instruction::Branch(dst) => wire != dst,
            Instruction::Input(dst) => wire != dst,
            Instruction::Output(_) => true,
        },
    ensures
        step::<D>(seeds, s, instruction).masks.contains_key(wire) == s.masks.contains_key(wire),
        s.masks.contains_key(wire) ==> step::<D>(seeds, s, instruction).masks[wire]
            == s.masks[wire],
{
}

/// Adding a constant and publishing a wire take nothing from the tapes and
/// correct nothing. A constant is public, so the mask stays as it is.
pub proof fn constants_keep_masks<D: Domain>(
    seeds: Seq<[u8; KEY_SIZE]>,
    s: Progress<D::Scalar>,
    dst: usize,
    src: usize,
    c: D::Scalar,
)
    ensures
        mask_of::<D>(step::<D>(seeds, s, Instruction::AddConst(dst, src, c)).masks, dst)
            == mask_of::<D>(s.masks, src),
        step::<D>(seeds, s, Instruction::AddConst(dst, src, c)) == (Progress {
            masks: step::<D>(seeds, s, Instruction::AddConst(dst, src, c)).masks,
            ..s
        }),
        step::<D>(seeds, s, Instruction::Output(src)) == s,
{
}

/// A wire that was not written has a mask of zeros, one for every player.
pub proof fn unwritten_wires_have_no_mask<D: Domain>(
    masks: Map<usize, Seq<D::Scalar>>,
    wire: usize,
    p: int,
)
    requires
        !masks.contains_key(wire),
    ensures
        mask_of::<D>(masks, wire).len() == D::PLAYERS,
        0 <= p < D::PLAYERS ==> mask_of::<D>(masks, wire)[p] == D::Scalar::spec_zero(),
{
}

/// A wire that was written has the mask that was written last.
pub proof fn written_wires_have_their_mask<D: Domain>(
    masks: Map<usize, Seq<D::Scalar>>,
    wire: usize,
    mask: Seq<D::Scalar>,
)
    ensures
        mask_of::<D>(masks.insert(wire, mask), wire) == mask,
{
}

/// Adding two wires adds their masks: player by player, and so in what the
/// shares sum to. Nothing is taken from the tapes or corrected.
pub proof fn addition_adds_masks<D: Domain>(
    seeds: Seq<[u8; KEY_SIZE]>,
    s: Progress<D::Scalar>,
    dst: usize,
    src1: usize,
    src2: usize,
    p: int,
)
    requires
        mask_of::<D>(s.masks, src1).len() == D::PLAYERS,
        mask_of::<D>(s.masks, src2).len() == D::PLAYERS,
        0 <= p < D::PLAYERS,
    ensures
        ({
            let (a, b) = (mask_of::<D>(s.masks, src1), mask_of::<D>(s.masks, src2));
            let end = step::<D>(seeds, s, Instruction::Add(dst, src1, src2));
            &&& end.masks.contains_key(dst)
            &&& end.masks[dst].len() == D::PLAYERS
            &&& end.masks[dst][p] == a[p].spec_plus(b[p])
            &&& sum(end.masks[dst]) == sum(a).spec_plus(sum(b))
            &&& end == (Progress { masks: end.masks, ..s })
        }),
{
    sum_of_vector_sum(mask_of::<D>(s.masks, src1), mask_of::<D>(s.masks, src2));
}

/// Multiplying a wire by a constant multiplies its mask: player by player, and
/// so in what the shares sum to. Nothing is taken from the tapes or corrected.
pub proof fn scaling_scales_masks<D: Domain>(
    seeds: Seq<[u8; KEY_SIZE]>,
    s: Progress<D::Scalar>,
    dst: usize,
    src: usize,
    c: D::Scalar,
    p: int,
)
    requires
        mask_of::<D>(s.masks, src).len() == D::PLAYERS,
        0 <= p < D::PLAYERS,
    ensures
        ({
            let a = mask_of::<D>(s.masks, src);
            let end = step::<D>(seeds, s, Instruction::MulConst(dst, src, c));
            &&& end.masks.contains_key(dst)
            &&& end.masks[dst].len() == D::PLAYERS
            &&& end.masks[dst][p] == a[p].spec_times(c)
            &&& sum(end.masks[dst]) == sum(a).spec_times(c)
            &&& end == (Progress { masks: end.masks, ..s })
        }),
{
    sum_of_multiple(mask_of::<D>(s.masks, src), c);
}

/// Multiplying two wires takes the next two sharings of the Beaver tape. The
/// first, with the one correction that is added, sums to the product of what the
/// masks sum to. The second is the mask of the product.
pub proof fn products_are_corrected<D: Domain>(
    seeds: Seq<[u8; KEY_SIZE]>,
    tape: Seq<PRG>,
    s: Progress<D::Scalar>,
    dst: usize,
    src1: usize,
    src2: usize,
)
    requires
        is_tape(tape, CONTEXT_RNG_BEAVER@, seeds),
    ensures
        ({
            let (a, b) = (mask_of::<D>(s.masks, src1), mask_of::<D>(s.masks, src2));
            let end = step::<D>(seeds, s, Instruction::Mul(dst, src1, src2));
            &&& end.corrections.drop_last() == s.corrections
            &&& end.corrections.len() == s.corrections.len() + 1
            &&& sum(tape_share::<D>(tape, s.triples)).spec_plus(end.corrections.last()) == sum(
                a,
            ).spec_times(sum(b))
            &&& end.masks.contains_key(dst)
            &&& end.masks[dst] == tape_share::<D>(tape, s.triples + 1)
            &&& end.triples == s.triples + 2
            &&& end.inputs == s.inputs
            &&& end.branches == s.branches
        }),
{
    lemma_is_tape(tape, CONTEXT_RNG_BEAVER@, seeds);
    correction_completes_product(
        mask_of::<D>(s.masks, src1),
        mask_of::<D>(s.masks, src2),
        tape_share::<D>(tape, s.triples),
    );
    let end = step::<D>(seeds, s, Instruction::Mul(dst, src1, src2));
    assert(end.corrections.drop_last() =~= s.corrections);
}

/// Reading an input takes the next sharing of the input tape as its mask, and
/// nothing else.
pub proof fn inputs_get_fresh_masks<D: Domain>(
    seeds: Seq<[u8; KEY_SIZE]>,
    tape: Seq<PRG>,
    s: Progress<D::Scalar>,
    dst: usize,
)
    requires
        is_tape(tape, CONTEXT_RNG_INPUT_MASK@, seeds),
    ensures
        ({
            let end = step::<D>(seeds, s, Instruction::Input(dst));
            &&& end.masks.contains_key(dst)
            &&& end.masks[dst] == tape_share::<D>(tape, s.inputs)
            &&& end == (Progress { masks: end.masks, inputs: s.inputs + 1, ..s })
        }),
{
    lemma_is_tape(tape, CONTEXT_RNG_INPUT_MASK@, seeds);
}

/// Reading an element of the branch takes the next sharing of the branch tape
/// as its mask, and nothing else.
pub proof fn branch_elements_get_fresh_masks<D: Domain>(
    seeds: Seq<[u8; KEY_SIZE]>,
    tape: Seq<PRG>,
    s: Progress<D::Scalar>,
    dst: usize,
)
    requires
        is_tape(tape, CONTEXT_RNG_BRANCH_MASK@, seeds),
    ensures
        ({
            let end = step::<D>(seeds, s, Instruction::Branch(dst));
            &&& end.masks.contains_key(dst)
            &&& end.masks[dst] == tape_share::<D>(tape, s.branches)
            &&& end == (Progress { masks: end.masks, branches: s.branches + 1, ..s })
        }),
{
    lemma_is_tape(tape, CONTEXT_RNG_BRANCH_MASK@, seeds);
}

/// A program of one instruction has the effect of the instruction, and an empty
/// one has none.
pub proof fn one_instruction_is_one_step<D: Domain>(
    seeds: Seq<[u8; KEY_SIZE]>,
    s: Progress<D::Scalar>,
    instruction: Instruction<D::Scalar>,
)
    ensures
        run::<D>(seeds, s, Seq::empty()) == s,
        run::<D>(seeds, s, seq![instruction]) == step::<D>(seeds, s, instruction),
{
    reveal_with_fuel(run, 2);
    assert(seq![instruction].drop_last() =~= Seq::empty());
}

/// Each instruction that reads an input, an element of the branch or a product
/// takes sharings of its own: as many were taken from each tape as the program
/// has such instructions, with two for every product, and there is one
/// correction for every product.
pub proof fn no_sharing_is_used_twice<D: Domain>(
    seeds: Seq<[u8; KEY_SIZE]>,
    s: Progress<D::Scalar>,
    program: Seq<Instruction<D::Scalar>>,
)
    ensures
        ({
            let end = run::<D>(seeds, s, program);
            let products = program.filter(|i: Instruction<D::Scalar>| i is Mul).len();
            &&& end.inputs == s.inputs + program.filter(
                |i: Instruction<D::Scalar>| i is Input,
            ).len()
            &&& end.branches == s.branches + program.filter(
                |i: Instruction<D::Scalar>| i is Branch,
            ).len()
            &&& end.triples == s.triples + 2 * products
            &&& end.corrections.len() == s.corrections.len() + products
        }),
    decreases program.len(),
{
    reveal(Seq::filter);
    if program.len() > 0 {
        no_sharing_is_used_twice::<D>(seeds, s, program.drop_last());
    }
}

/// A branch is hashed element by element, each of them hidden by what the
/// sharing of the same number sums to.
pub proof fn branch_is_hashed_under_its_masks<D: Domain>(
    branch: Seq<Seq<D::Scalar>>,
    tape: Seq<PRG>,
    message: Seq<u8>,
)
    requires
        message.len() == branch.flatten().len(),
        forall|j: int|
            0 <= j < message.len() ==> #[trigger] message[j] == branch.flatten()[j].spec_plus(
                sum(tape_share::<D>(tape, j as nat)),
            ).spec_byte(),
    ensures
        branch_hash::<D>(branch, tape).bytes == digest(message),
{
    assert(message =~= element_bytes(masked::<D>(branch.flatten(), tape)));
}

/// Two messages have the same hash though they differ.
pub open spec fn collide(x: Seq<u8>, y: Seq<u8>) -> bool {
    x != y && digest(x) == digest(y)
}

/// The message of which the hash of a branch is taken.
pub open spec fn branch_message<D: Domain>(branch: Seq<Seq<D::Scalar>>, tape: Seq<PRG>) -> Seq<
    u8,
> {
    element_bytes(masked::<D>(branch.flatten(), tape))
}

/// The hash of a branch commits to its elements: two branches with the same hash
/// under one tape have the same elements, unless their messages collide.
pub proof fn branch_hash_binds<D: Domain>(
    a: Seq<Seq<D::Scalar>>,
    b: Seq<Seq<D::Scalar>>,
    tape: Seq<PRG>,
)
    requires
        branch_hash::<D>(a, tape) == branch_hash::<D>(b, tape),
        !collide(branch_message::<D>(a, tape), branch_message::<D>(b, tape)),
    ensures
        a.flatten() == b.flatten(),
{
    let (x, y) = (a.flatten(), b.flatten());
    let (u, v) = (branch_message::<D>(a, tape), branch_message::<D>(b, tape));
    assert(u == v);
    assert(x.len() == u.len() && y.len() == v.len());
    assert forall|j: int| 0 <= j < x.len() implies x[j] == y[j] by {
        let mask = sum(tape_share::<D>(tape, j as nat));
        assert(u[j] == x[j].spec_plus(mask).spec_byte());
        assert(v[j] == y[j].spec_plus(mask).spec_byte());
        D::Scalar::byte_determines(x[j].spec_plus(mask), y[j].spec_plus(mask));
        plus_cancels(x[j], y[j], mask);
    }
    assert(x =~= y);
}

/// Every branch is committed to, each just once: the branches are hashed in an
/// order that is drawn from the root seed, under masks from the branch tapes of
/// the players, and the order leaves none out and repeats none.
pub proof fn every_branch_is_committed_to<D: Domain>(
    root: [u8; KEY_SIZE],
    branches: Seq<Seq<Seq<D::Scalar>>>,
    tape: Seq<PRG>,
    b: usize,
)
    requires
        b < branches.len() <= usize::MAX,
        is_tape(tape, CONTEXT_RNG_BRANCH_MASK@, key_leaves(root, D::PLAYERS as nat)),
    ensures
        ({
            let hashes = branch_hashes::<D>(root, branches);
            let order = shuffled(
                PRG { key: derived_key(CONTEXT_RNG_BRANCH_PERMUTE@, root@), counter: 0 },
                identity(branches.len()),
                0,
            );
            &&& hashes.len() == branches.len()
            &&& order.len() == branches.len()
            &&& order.no_duplicates()
            &&& order.contains(b)
            &&& forall|k: int|
                0 <= k < hashes.len() && order[k] == b ==> #[trigger] hashes[k] == branch_hash::<D>(
                    branches[b as int],
                    tape,
                )
            &&& hashes.contains(branch_hash::<D>(branches[b as int], tape))
        }),
{
    let n = branches.len();
    let prg = PRG { key: derived_key(CONTEXT_RNG_BRANCH_PERMUTE@, root@), counter: 0 };
    let order = shuffled(prg, identity(n), 0);
    shuffle_is_a_permutation(prg, n);
    lemma_is_tape(tape, CONTEXT_RNG_BRANCH_MASK@, key_leaves(root, D::PLAYERS as nat));
    assert(order.contains(b));
    let k = choose|k: int| 0 <= k < order.len() && order[k] == b;
    assert(branch_hashes::<D>(root, branches)[k] == branch_hash::<D>(branches[b as int], tape));
}

/// The hashes of the branches are, in some order, just the hashes of all
/// branches.
pub proof fn branch_hashes_are_those_of_all_branches<D: Domain>(
    root: [u8; KEY_SIZE],
    branches: Seq<Seq<Seq<D::Scalar>>>,
    tape: Seq<PRG>,
)
    requires
        branches.len() <= usize::MAX,
        is_tape(tape, CONTEXT_RNG_BRANCH_MASK@, key_leaves(root, D::PLAYERS as nat)),
    ensures
        branch_hashes::<D>(root, branches).to_multiset() == branches.map_values(
            |branch: Seq<Seq<D::Scalar>>| branch_hash::<D>(branch, tape),
        ).to_multiset(),
{
    let n = branches.len();
    let prg = PRG { key: derived_key(CONTEXT_RNG_BRANCH_PERMUTE@, root@), counter: 0 };
    let hash_of = |b: usize| branch_hash::<D>(branches[b as int], tape);
    lemma_is_tape(tape, CONTEXT_RNG_BRANCH_MASK@, key_leaves(root, D::PLAYERS as nat));
    shuffle_is_a_permutation(prg, n);
    shuffle_keeps_values(prg, n, hash_of);
    assert(branch_hashes::<D>(root, branches) =~= shuffled(prg, identity(n), 0).map_values(
        hash_of,
    ));
    assert(branches.map_values(
        |branch: Seq<Seq<D::Scalar>>| branch_hash::<D>(branch, tape),
    ) =~= identity(n).map_values(hash_of));
}

/// The commitment to a player is the hash of its seed. The message of the first
/// player goes on with the corrections of all products of the program.
pub proof fn players_are_committed_to<D: Domain>(
    root: [u8; KEY_SIZE],
    branches: Seq<Seq<Seq<D::Scalar>>>,
    program: Seq<Instruction<D::Scalar>>,
    p: int,
    message: Seq<u8>,
)
    requires
        0 <= p < D::PLAYERS,
        message.take(32) == key_along(root, path_to(D::PLAYERS as nat, p as nat))@,
        ({
            let corrections = run::<D>(
                key_leaves(root, D::PLAYERS as nat),
                Progress {
                    masks: Map::empty(),
                    corrections: Seq::empty(),
                    inputs: 0,
                    branches: 0,
                    triples: 0,
                },
                program,
            ).corrections;
            if p == 0 {
                &&& message.len() == 32 + corrections.len()
                &&& forall|i: int|
                    0 <= i < corrections.len() ==> message[32 + i] == (
                    #[trigger] corrections[i]).spec_byte()
            } else {
                message.len() == 32
            }
        }),
    ensures
        repetition::<D>(root, branches, program).1.len() == D::PLAYERS,
        repetition::<D>(root, branches, program).1[p].bytes == digest(message),
{
    let seeds = key_leaves(root, D::PLAYERS as nat);
    let corrections = run::<D>(seeds, start(), program).corrections;
    leaf_is_derived_along_its_path(root, D::PLAYERS as nat, p as nat);
    if p == 0 {
        let expected = seeds[p]@ + element_bytes(corrections);
        assert forall|x: int| 0 <= x < message.len() implies message[x] == expected[x] by {
            if x < 32 {
                assert(message[x] == message.take(32)[x]);
            } else {
                assert(corrections[x - 32].spec_byte() == message[32 + (x - 32)]);
            }
        }
        assert(message =~= expected);
    } else {
        assert(message =~= message.take(32));
    }
}

/// The commitment to a repetition is the hash of the commitments to all players
/// and the hashes of all branches, one behind the other.
pub proof fn repetition_is_committed_to<D: Domain>(
    root: [u8; KEY_SIZE],
    branches: Seq<Seq<Seq<D::Scalar>>>,
    program: Seq<Instruction<D::Scalar>>,
    message: Seq<u8>,
)
    requires
        message.len() == 32 * (D::PLAYERS + branches.len()),
        forall|p: int, k: int|
            #![trigger repetition::<D>(root, branches, program).1[p].bytes@[k]]
            0 <= p < D::PLAYERS && 0 <= k < 32 ==> message[32 * p + k] == repetition::<D>(
                root,
                branches,
                program,
            ).1[p].bytes@[k],
        forall|b: int, k: int|
            #![trigger branch_hashes::<D>(root, branches)[b].bytes@[k]]
            0 <= b < branches.len() && 0 <= k < 32 ==> message[32 * (D::PLAYERS + b) + k]
                == branch_hashes::<D>(root, branches)[b].bytes@[k],
    ensures
        repetition::<D>(root, branches, program).0.bytes == digest(message),
{
    let players = repetition::<D>(root, branches, program).1;
    let hashes = branch_hashes::<D>(root, branches);
    lemma_key_leaves_len(root, D::PLAYERS as nat);
    lemma_joined_len(players);
    lemma_joined_len(hashes);
    let expected = joined(players) + joined(hashes);
    assert forall|x: int| 0 <= x < message.len() implies message[x] == expected[x] by {
        let (q, k) = (x / 32, x % 32);
        if q < D::PLAYERS {
            joined_holds_every_hash(players, q, k);
            assert(players[q].bytes@[k] == message[32 * q + k]);
        } else {
            let b = q - D::PLAYERS;
            joined_holds_every_hash(hashes, b, k);
            assert(hashes[b].bytes@[k] == message[32 * (D::PLAYERS + b) + k]);
        }
    }
    assert(message =~= expected);
}

/// The message of which the commitment to a repetition is the hash.
pub open spec fn union_message<D: Domain>(
    root: [u8; KEY_SIZE],
    branches: Seq<Seq<Seq<D::Scalar>>>,
    program: Seq<Instruction<D::Scalar>>,
) -> Seq<u8> {
    joined(repetition::<D>(root, branches, program).1) + joined(
        branch_hashes::<D>(root, branches),
    )
}

/// The message of which the commitment to a player is the hash.
pub open spec fn player_message<S: RingElement>(
    seeds: Seq<[u8; KEY_SIZE]>,
    corrections: Seq<S>,
    p: int,
) -> Seq<u8> {
    if p == 0 {
        seeds[p]@ + element_bytes(corrections)
    } else {
        seeds[p]@
    }
}

/// The commitments to the players commit to all seeds and to all corrections:
/// where they are the same, so are these, unless two messages collide.
pub proof fn player_commitments_bind<S: RingElement>(
    a: Seq<[u8; KEY_SIZE]>,
    a_corrections: Seq<S>,
    b: Seq<[u8; KEY_SIZE]>,
    b_corrections: Seq<S>,
)
    requires
        a.len() > 0,
        player_commitments(a, a_corrections) == player_commitments(b, b_corrections),
        forall|p: int|
            0 <= p < a.len() ==> !collide(
                #[trigger] player_message(a, a_corrections, p),
                player_message(b, b_corrections, p),
            ),
    ensures
        a == b,
        a_corrections == b_corrections,
{
    let (x, y) = (player_commitments(a, a_corrections), player_commitments(b, b_corrections));
    assert(x.len() == a.len() && y.len() == b.len());
    assert forall|p: int| 0 <= p < a.len() implies #[trigger] player_message(a, a_corrections, p)
        == player_message(b, b_corrections, p) by {
        assert(x[p].bytes == digest(player_message(a, a_corrections, p)));
        assert(y[p].bytes == digest(player_message(b, b_corrections, p)));
    }
    let (u, v) = (player_message(a, a_corrections, 0), player_message(b, b_corrections, 0));
    assert(u == v);
    assert forall|p: int| 0 <= p < a.len() implies a[p] == b[p] by {
        assert(player_message(a, a_corrections, p) == player_message(b, b_corrections, p));
        if p == 0 {
            assert(a[0]@ =~= u.take(32));
            assert(b[0]@ =~= v.take(32));
        }
        assert(a[p] =~= b[p]);
    }
    assert(a =~= b);
    assert(element_bytes(a_corrections) =~= u.skip(32));
    assert(element_bytes(b_corrections) =~= v.skip(32));
    assert forall|i: int| 0 <= i < a_corrections.len() implies a_corrections[i]
        == b_corrections[i] by {
        assert(element_bytes(a_corrections)[i] == element_bytes(b_corrections)[i]);
        S::byte_determines(a_corrections[i], b_corrections[i]);
    }
    assert(element_bytes(a_corrections).len() == element_bytes(b_corrections).len());
    assert(a_corrections =~= b_corrections);
}

/// The commitment to a repetition commits to every element of every branch and
/// to every correction of the program: two repetitions of one root seed with as
/// many branches and the same commitment agree in them, unless two messages
/// collide.
pub proof fn repetition_binds<D: Domain>(
    root: [u8; KEY_SIZE],
    a: Seq<Seq<Seq<D::Scalar>>>,
    a_program: Seq<Instruction<D::Scalar>>,
    b: Seq<Seq<Seq<D::Scalar>>>,
    b_program: Seq<Instruction<D::Scalar>>,
    tape: Seq<PRG>,
)
    requires
        D::PLAYERS > 0,
        a.len() == b.len() <= usize::MAX,
        is_tape(tape, CONTEXT_RNG_BRANCH_MASK@, key_leaves(root, D::PLAYERS as nat)),
        repetition::<D>(root, a, a_program).0 == repetition::<D>(root, b, b_program).0,
        !collide(
            union_message::<D>(root, a, a_program),
            union_message::<D>(root, b, b_program),
        ),
        forall|i: int|
            0 <= i < a.len() ==> !collide(
                #[trigger] branch_message::<D>(a[i], tape),
                branch_message::<D>(b[i], tape),
            ),
        ({
            let seeds = key_leaves(root, D::PLAYERS as nat);
            forall|p: int|
                0 <= p < D::PLAYERS ==> !collide(
                    #[trigger] player_message(
                        seeds,
                        run::<D>(seeds, start(), a_program).corrections,
                        p,
                    ),
                    player_message(seeds, run::<D>(seeds, start(), b_program).corrections, p),
                )
        }),
    ensures
        forall|i: int| 0 <= i < a.len() ==> (#[trigger] a[i]).flatten() == b[i].flatten(),
        ({
            let seeds = key_leaves(root, D::PLAYERS as nat);
            run::<D>(seeds, start(), a_program).corrections == run::<D>(
                seeds,
                start(),
                b_program,
            ).corrections
        }),
{
    let seeds = key_leaves(root, D::PLAYERS as nat);
    let (x, y) = (repetition::<D>(root, a, a_program), repetition::<D>(root, b, b_program));
    let (s, t) = (branch_hashes::<D>(root, a), branch_hashes::<D>(root, b));
    let (u, v) = (union_message::<D>(root, a, a_program), union_message::<D>(root, b, b_program));
    lemma_key_leaves_len(root, D::PLAYERS as nat);
    lemma_joined_len(x.1);
    lemma_joined_len(y.1);
    assert(u == v);
    assert(joined(x.1) =~= u.take(32 * D::PLAYERS));
    assert(joined(y.1) =~= v.take(32 * D::PLAYERS));
    assert(joined(s) =~= u.skip(32 * D::PLAYERS));
    assert(joined(t) =~= v.skip(32 * D::PLAYERS));
    joined_tells_lists_apart(x.1, y.1);
    joined_tells_lists_apart(s, t);
    player_commitments_bind(
        seeds,
        run::<D>(seeds, start(), a_program).corrections,
        seeds,
        run::<D>(seeds, start(), b_program).corrections,
    );
    assert forall|i: int| 0 <= i < a.len() implies (#[trigger] a[i]).flatten()
        == b[i].flatten() by {
        every_branch_is_committed_to::<D>(root, a, tape, i as usize);
        every_branch_is_committed_to::<D>(root, b, tape, i as usize);
        let order = shuffled(
            PRG { key: derived_key(CONTEXT_RNG_BRANCH_PERMUTE@, root@), counter: 0 },
            identity(a.len()),
            0,
        );
        let k = choose|k: int| 0 <= k < order.len() && order[k] == i as usize;
        assert(s[k] == branch_hash::<D>(a[i], tape));
        assert(t[k] == branch_hash::<D>(b[i], tape));
        branch_hash_binds::<D>(a[i], b[i], tape);
    }
}

} // verus!
