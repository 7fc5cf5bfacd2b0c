//! Random sharings, read from one tape for every player.

use vstd::prelude::*;
use vstd::arithmetic::div_mod::lemma_fundamental_div_mod;
use vstd::arithmetic::div_mod::lemma_fundamental_div_mod_converse;

use crate::algebra::column;
use crate::algebra::transposes;
use crate::algebra::zeros;
use crate::algebra::Domain;
use crate::algebra::RingModule;
use crate::algebra::Samplable;
use crate::consts::CONTEXT_RNG_BEAVER;
use crate::consts::CONTEXT_RNG_BRANCH_MASK;
use crate::consts::CONTEXT_RNG_BRANCH_PERMUTE;
use crate::consts::CONTEXT_RNG_INPUT_MASK;
use crate::crypto::derived_key;
use crate::crypto::kdf;
use crate::crypto::KEY_SIZE;
use crate::crypto::PRG;
use crate::util::identity;
use crate::util::is_permutation;
use crate::util::random_permutation;
use crate::util::shuffled;

verus! {

/// The generator that belongs to a seed in a context.
pub open spec fn seeded(context: Seq<char>, seed: [u8; KEY_SIZE]) -> PRG {
    PRG::from_key(derived_key(context, seed@))
}

/// The generators that belong to the seeds of the players in a context.
pub open spec fn seeded_all(context: Seq<char>, seeds: Seq<[u8; KEY_SIZE]>) -> Seq<PRG> {
    Seq::new(seeds.len(), |p: int| seeded(context, seeds[p]))
}

/// The order of the branches that a seed stands for.
pub fn branch_permutation(seed: &[u8; KEY_SIZE], branches: usize) -> (order: Vec<usize>)
    ensures
        order@ == shuffled(
            seeded(CONTEXT_RNG_BRANCH_PERMUTE@, *seed),
            identity(branches as nat),
            0,
        ),
        is_permutation(order@, branches as nat),
        order@.len() == branches,
        order@.no_duplicates(),
        forall|b: int| 0 <= b < branches ==> #[trigger] order@[b] < branches,
{
    let mut prg = PRG::new(kdf(CONTEXT_RNG_BRANCH_PERMUTE, seed.as_slice()));
    random_permutation(&mut prg, branches)
}

/// A generator after it gave `n` values.
pub open spec fn after<B: Samplable>(prg: PRG, n: nat) -> PRG
    decreases n,
{
    if n == 0 {
        prg
    } else {
        B::sampled_rest(after::<B>(prg, (n - 1) as nat))
    }
}

/// A generator only goes on: each value is drawn where the value before it left
/// the generator, and drawing some values and then more is drawing them all.
pub proof fn generators_only_go_on<B: Samplable>(prg: PRG, n: nat, m: nat)
    ensures
        after::<B>(prg, 0) == prg,
        after::<B>(prg, n + 1) == B::sampled_rest(after::<B>(prg, n)),
        after::<B>(prg, n + m) == after::<B>(after::<B>(prg, n), m),
    decreases m,
{
    if m > 0 {
        generators_only_go_on::<B>(prg, n, (m - 1) as nat);
    }
}

/// The batches of all players in a round of their tapes.
pub open spec fn tape_batches<D: Domain>(tape: Seq<PRG>, round: nat) -> Seq<D::Batch> {
    Seq::new(tape.len(), |p: int| D::Batch::sampled(after::<D::Batch>(tape[p], round)))
}

/// Sharing number `k` of a tape: the element of every player at position `k`,
/// when the batches of each player are laid end to end.
pub open spec fn tape_share<D: Domain>(tape: Seq<PRG>, k: nat) -> Seq<D::Scalar> {
    column::<D::Scalar, D::Batch>(
        tape_batches::<D>(tape, k / (D::Batch::DIMENSION as nat)),
        (k % (D::Batch::DIMENSION as nat)) as int,
    )
}

/// Element `r` of batch `q` of every player, in the order of the players, is the
/// sharing at the place of the element when the batches are laid end to end.
pub proof fn share_holds_one_element_of_every_player<D: Domain>(
    tape: Seq<PRG>,
    q: nat,
    r: nat,
    p: int,
)
    requires
        r < D::Batch::DIMENSION,
        0 <= p < tape.len(),
    ensures
        tape_share::<D>(tape, q * (D::Batch::DIMENSION as nat) + r).len() == tape.len(),
        tape_share::<D>(tape, q * (D::Batch::DIMENSION as nat) + r)[p] == D::Batch::sampled(
            after::<D::Batch>(tape[p], q),
        ).elements()[r as int],
{
    let d = D::Batch::DIMENSION as nat;
    lemma_fundamental_div_mod_converse((q * d + r) as int, d as int, q as int, r as int);
}

/// The tape of a player starts at the generator that is derived from the seed
/// of this player, under the context of the tape.
pub proof fn tape_belongs_to_its_seed(context: Seq<char>, seeds: Seq<[u8; KEY_SIZE]>, p: int)
    requires
        0 <= p < seeds.len(),
    ensures
        seeded_all(context, seeds).len() == seeds.len(),
        seeded_all(context, seeds)[p] == (PRG {
            key: derived_key(context, seeds[p]@),
            counter: 0,
        }),
{
}

/// The generators of the players after each of them gave `n` batches.
pub open spec fn drawn<D: Domain>(tape: Seq<PRG>, n: nat) -> Seq<PRG> {
    Seq::new(tape.len(), |p: int| after::<D::Batch>(tape[p], n))
}

/// The number of batches of dimension `d` that `k` sharings are taken from.
pub open spec fn draws_for(k: nat, d: nat) -> nat {
    ((k + d - 1) / (d as int)) as nat
}

/// The batches that `k` sharings are taken from hold at least `k` elements of
/// every player, and one batch less would not.
pub proof fn no_batch_is_drawn_early(k: nat, d: nat)
    requires
        d > 0,
    ensures
        k <= draws_for(k, d) * d < k + d,
{
    let n = k + d - 1;
    let (q, r) = (n / (d as int), n % (d as int));
    lemma_fundamental_div_mod(n, d as int);
    assert(q * d == d * q) by (nonlinear_arith);
    assert(q >= 0) by (nonlinear_arith)
        requires
            n == d * q + r,
            n >= 0,
            r < d,
            d > 0,
    ;
}

/// Hands out the sharings of a tape one by one, and generates them batch by
/// batch.
pub struct ShareGenerator<D: Domain> {
    batches: Vec<D::Batch>,
    shares: Vec<D::Sharing>,
    next: usize,
    prgs: Vec<PRG>,
    tape: Ghost<Seq<PRG>>,
    rounds: Ghost<nat>,
}

impl<D: Domain> ShareGenerator<D> {
    /// The generators of the players at the start of the tape.
    pub closed spec fn tape(self) -> Seq<PRG> {
        self.tape@
    }

    /// The generators of the players as they stand now.
    pub closed spec fn generators(self) -> Seq<PRG> {
        self.prgs@
    }

    /// The number of the sharing that is handed out next.
    pub closed spec fn position(self) -> nat {
        if self.rounds@ == 0 {
            0
        } else {
            ((self.rounds@ - 1) as nat) * (D::Batch::DIMENSION as nat) + self.next as nat
        }
    }

    /// The fields belong to the position on the tape.
    pub closed spec fn wf(self) -> bool {
        &&& self.tape@.len() == D::PLAYERS
        &&& self.batches@.len() == D::PLAYERS
        &&& self.prgs@.len() == D::PLAYERS
        &&& self.shares@.len() == D::Batch::DIMENSION
        &&& self.next <= D::Batch::DIMENSION
        &&& forall|p: int|
            0 <= p < D::PLAYERS ==> #[trigger] self.prgs@[p] == after::<D::Batch>(
                self.tape@[p],
                self.rounds@,
            )
        &&& if self.rounds@ == 0 {
            &&& self.next == D::Batch::DIMENSION
            &&& forall|p: int|
                0 <= p < D::PLAYERS ==> (#[trigger] self.batches@[p]).elements() == zeros::<
                    D::Scalar,
                >(D::Batch::DIMENSION as nat)
        } else {
            &&& self.next > 0
            &&& self.batches@ == tape_batches::<D>(self.tape@, (self.rounds@ - 1) as nat)
            &&& transposes::<D::Scalar, D::Batch, D::Sharing>(self.shares@, self.batches@)
        }
    }

    /// Starts at the front of a tape.
    pub fn new(prgs: Vec<PRG>) -> (generator: Self)
        requires
            prgs@.len() == D::PLAYERS,
        ensures
            generator.wf(),
            generator.tape() == prgs@,
            generator.position() == 0,
            generator.generators() == prgs@,
    {
        let mut batches: Vec<D::Batch> = Vec::with_capacity(D::PLAYERS);
        while batches.len() < D::PLAYERS
            invariant
                batches.len() <= D::PLAYERS,
                forall|p: int|
                    0 <= p < batches.len() ==> (#[trigger] batches@[p]).elements() == zeros::<
                        D::Scalar,
                    >(D::Batch::DIMENSION as nat),
            decreases D::PLAYERS - batches.len(),
        {
            batches.push(D::Batch::zero());
        }
        let mut shares: Vec<D::Sharing> = Vec::with_capacity(D::Batch::DIMENSION);
        while shares.len() < D::Batch::DIMENSION
            invariant
                shares.len() <= D::Batch::DIMENSION,
            decreases D::Batch::DIMENSION - shares.len(),
        {
            shares.push(D::Sharing::zero());
        }
        let ghost tape = prgs@;
        ShareGenerator {
            batches,
            shares,
            next: D::Batch::DIMENSION,
            prgs,
            tape: Ghost(tape),
            rounds: Ghost(0),
        }
    }

    /// Hands out the next sharing of the tape.
    pub fn next(&mut self) -> (share: D::Sharing)
        requires
            old(self).wf(),
        ensures
            final(self).wf(),
            final(self).tape() == old(self).tape(),
            final(self).position() == old(self).position() + 1,
            share.elements() == tape_share::<D>(old(self).tape(), old(self).position()),
            final(self).generators() == drawn::<D>(
                old(self).tape(),
                draws_for(final(self).position(), D::Batch::DIMENSION as nat),
            ),
            forall|p: int|
                0 <= p < D::PLAYERS ==> #[trigger] share.elements()[p] == D::Batch::sampled(
                    after::<D::Batch>(
                        old(self).tape()[p],
                        old(self).position() / (D::Batch::DIMENSION as nat),
                    ),
                ).elements()[(old(self).position() % (D::Batch::DIMENSION as nat)) as int],
            forall|p: int|
                0 <= p < D::PLAYERS ==> #[trigger] final(self).generators()[p] == (if old(
                    self,
                ).position() % (D::Batch::DIMENSION as nat) == 0 {
                    D::Batch::sampled_rest(old(self).generators()[p])
                } else {
                    old(self).generators()[p]
                }),
    {
        proof {
            self.lemma_position_mod();
        }
        if self.next >= self.shares.len() {
            let mut i: usize = 0;
            while i < D::PLAYERS
                invariant
                    i <= D::PLAYERS,
                    self.tape == old(self).tape,
                    self.rounds == old(self).rounds,
                    self.next == old(self).next,
                    self.shares@.len() == D::Batch::DIMENSION,
                    self.tape@.len() == D::PLAYERS,
                    self.batches@.len() == D::PLAYERS,
                    self.prgs@.len() == D::PLAYERS,
                    forall|p: int|
                        0 <= p < i ==> #[trigger] self.batches@[p] == tape_batches::<D>(
                            self.tape@,
                            self.rounds@,
                        )[p],
                    forall|p: int|
                        0 <= p < i ==> #[trigger] self.prgs@[p] == after::<D::Batch>(
                            self.tape@[p],
                            self.rounds@ + 1,
                        ),
                    forall|p: int|
                        i <= p < D::PLAYERS ==> #[trigger] self.prgs@[p] == after::<D::Batch>(
                            self.tape@[p],
                            self.rounds@,
                        ),
                decreases D::PLAYERS - i,
            {
                self.batches[i] = D::Batch::gen(&mut self.prgs[i]);
                i = i + 1;
            }
            D::convert(self.shares.as_mut_slice(), self.batches.as_slice());
            self.next = 0;
            proof {
                self.rounds@ = self.rounds@ + 1;
                assert(self.batches@ =~= tape_batches::<D>(self.tape@, (self.rounds@ - 1) as nat));
                assert(self.position() == old(self).position());
            }
        }
        let elem = self.shares[self.next];
        proof {
            lemma_fundamental_div_mod_converse(
                old(self).position() as int,
                D::Batch::DIMENSION as int,
                self.rounds@ - 1,
                self.next as int,
            );
        }
        self.next = self.next + 1;
        proof {
            self.draws_in_step();
        }
        elem
    }

    /// The batches from which the last sharing was taken; zeros before the
    /// first.
    pub fn batches(&self) -> (batches: &[D::Batch])
        requires
            self.wf(),
        ensures
            batches@.len() == D::PLAYERS,
            self.position() == 0 ==> forall|p: int|
                0 <= p < batches@.len() ==> (#[trigger] batches@[p]).elements() == zeros::<
                    D::Scalar,
                >(D::Batch::DIMENSION as nat),
            self.position() > 0 ==> batches@ == tape_batches::<D>(
                self.tape(),
                ((self.position() - 1) / (D::Batch::DIMENSION as int)) as nat,
            ),
    {
        proof {
            D::Batch::dimension();
            if self.position() > 0 {
                lemma_fundamental_div_mod_converse(
                    self.position() - 1,
                    D::Batch::DIMENSION as int,
                    self.rounds@ - 1,
                    self.next - 1,
                );
            }
        }
        self.batches.as_slice()
    }

    /// Whether the next sharing has to be generated.
    pub fn is_empty(&self) -> (empty: bool)
        requires
            self.wf(),
        ensures
            empty == (self.position() % (D::Batch::DIMENSION as nat) == 0),
    {
        proof {
            self.lemma_position_mod();
        }
        self.next == D::Batch::DIMENSION
    }

    /// Drops what is left of the current batches.
    pub fn empty(&mut self)
        requires
            old(self).wf(),
        ensures
            final(self).wf(),
            final(self).tape() == old(self).tape(),
            final(self).position() == next_multiple(
                old(self).position(),
                D::Batch::DIMENSION as nat,
            ),
            final(self).position() % (D::Batch::DIMENSION as nat) == 0,
            old(self).position() <= final(self).position() < old(self).position()
                + D::Batch::DIMENSION,
            final(self).generators() == old(self).generators(),
    {
        proof {
            self.lemma_position_mod();
        }
        self.next = D::Batch::DIMENSION;
        proof {
            self.lemma_position_mod();
        }
    }

    /// All players have drawn as many batches as the sharings up to the
    /// position are taken from: a batch is drawn only when a sharing from it is
    /// needed.
    pub proof fn draws_in_step(self)
        requires
            self.wf(),
        ensures
            self.generators() == drawn::<D>(
                self.tape(),
                draws_for(self.position(), D::Batch::DIMENSION as nat),
            ),
    {
        let d = D::Batch::DIMENSION as int;
        let rounds = self.rounds@;
        D::Batch::dimension();
        if rounds == 0 {
            lemma_fundamental_div_mod_converse(d - 1, d, 0, d - 1);
        } else {
            assert(self.position() + d - 1 == rounds * d + (self.next - 1)) by (nonlinear_arith)
                requires
                    self.position() == ((rounds - 1) as nat) * (d as nat) + self.next,
                    rounds > 0,
                    d > 0,
            ;
            lemma_fundamental_div_mod_converse(
                self.position() + d - 1,
                d,
                rounds as int,
                self.next - 1,
            );
        }
        assert(self.generators() =~= drawn::<D>(self.tape(), rounds));
    }

    /// Where the position stands within its batch, and in which round.
    proof fn lemma_position_mod(self)
        requires
            self.wf(),
        ensures
            D::Batch::DIMENSION > 0,
            self.position() % (D::Batch::DIMENSION as nat) == 0 <==> self.next
                == D::Batch::DIMENSION,
            self.next == D::Batch::DIMENSION ==> self.position() == self.rounds@ * (
            D::Batch::DIMENSION as nat),
            self.next < D::Batch::DIMENSION ==> self.position() / (D::Batch::DIMENSION as nat)
                == self.rounds@ - 1,
    {
        let d = D::Batch::DIMENSION as nat;
        let rounds = self.rounds@;
        D::Batch::dimension();
        if self.next < D::Batch::DIMENSION {
            lemma_fundamental_div_mod_converse(
                self.position() as int,
                d as int,
                rounds - 1,
                self.next as int,
            );
        } else {
            if rounds > 0 {
                assert(((rounds - 1) as nat) * d + d == rounds * d) by (nonlinear_arith)
                    requires
                        rounds > 0,
                ;
            } else {
                assert(rounds * d == 0) by (nonlinear_arith)
                    requires
                        rounds == 0,
                ;
            }
            lemma_fundamental_div_mod_converse(self.position() as int, d as int, rounds as int, 0);
        }
    }
}

/// The tapes of one repetition.
pub struct SharesGenerator<D: Domain> {
    pub input: ShareGenerator<D>,
    pub branch: ShareGenerator<D>,
    pub beaver: ShareGenerator<D>,
}

/// Starts one generator for every player.
fn seed_all(context: &'static str, player_seeds: &[[u8; KEY_SIZE]]) -> (prgs: Vec<PRG>)
    ensures
        prgs@ == seeded_all(context@, player_seeds@),
{
    let mut prgs: Vec<PRG> = Vec::with_capacity(player_seeds.len());
    let mut p: usize = 0;
    while p < player_seeds.len()
        invariant
            p <= player_seeds@.len(),
            prgs@ == seeded_all(context@, player_seeds@).take(p as int),
        decreases player_seeds@.len() - p,
    {
        prgs.push(PRG::new(kdf(context, player_seeds[p].as_slice())));
        p = p + 1;
    }
    prgs
}

impl<D: Domain> SharesGenerator<D> {
    /// The tapes that the seeds of the players stand for, each at its front.
    pub fn new(player_seeds: &[[u8; KEY_SIZE]]) -> (generator: Self)
        requires
            player_seeds@.len() == D::PLAYERS,
        ensures
            generator.input.wf(),
            generator.input.tape() == seeded_all(CONTEXT_RNG_INPUT_MASK@, player_seeds@),
            generator.input.position() == 0,
            generator.branch.wf(),
            generator.branch.tape() == seeded_all(CONTEXT_RNG_BRANCH_MASK@, player_seeds@),
            generator.branch.position() == 0,
            generator.beaver.wf(),
            generator.beaver.tape() == seeded_all(CONTEXT_RNG_BEAVER@, player_seeds@),
            generator.beaver.position() == 0,
    {
        let input_prgs = seed_all(CONTEXT_RNG_INPUT_MASK, player_seeds);
        let branch_prgs = seed_all(CONTEXT_RNG_BRANCH_MASK, player_seeds);
        let beaver_prgs = seed_all(CONTEXT_RNG_BEAVER, player_seeds);
        SharesGenerator {
            input: ShareGenerator::new(input_prgs),
            branch: ShareGenerator::new(branch_prgs),
            beaver: ShareGenerator::new(beaver_prgs),
        }
    }
}

/// The generators of one player.
pub struct Player {
    pub input: PRG,
    pub beaver: PRG,
    pub branch: PRG,
}

impl Player {
    /// The generators that the seed of a player stands for.
    pub fn new(seed: &[u8; KEY_SIZE]) -> (player: Self)
        ensures
            player.input == seeded(CONTEXT_RNG_INPUT_MASK@, *seed),
            player.beaver == seeded(CONTEXT_RNG_BEAVER@, *seed),
            player.branch == seeded(CONTEXT_RNG_BRANCH_MASK@, *seed),
            player.input.key == derived_key(CONTEXT_RNG_INPUT_MASK@, seed@),
            player.beaver.key == derived_key(CONTEXT_RNG_BEAVER@, seed@),
            player.branch.key == derived_key(CONTEXT_RNG_BRANCH_MASK@, seed@),
            player.input.counter == 0 && player.beaver.counter == 0 && player.branch.counter == 0,
    {
        Player {
            input: PRG::new(kdf(CONTEXT_RNG_INPUT_MASK, seed.as_slice())),
            beaver: PRG::new(kdf(CONTEXT_RNG_BEAVER, seed.as_slice())),
            branch: PRG::new(kdf(CONTEXT_RNG_BRANCH_MASK, seed.as_slice())),
        }
    }
}

/// The first multiple of `d` that is not below `n`.
pub open spec fn next_multiple(n: nat, d: nat) -> nat {
    if n % d == 0 {
        n
    } else {
        (n / d + 1) * d
    }
}

} // verus!
