# reverie

The preprocessing phase of an "MPC in the head" proof system, as a verified
library.

A prover simulates a multi-party computation many times over. Each repetition
is committed to, a random oracle picks the repetitions that stay hidden for the
online phase, and a punctured key tree opens the seeds of all others. A
verifier runs the opened repetitions again and asks the oracle for the same
choice.

- `src/algebra`: rings, packed vectors and the domain `GF2P8`
- `src/crypto`: hashes, generators and the puncturable key tree, built on BLAKE3
- `src/fs.rs`: the random oracle
- `src/util.rs`: reading programs in parts, sampling subsets and permutations
- `src/preprocessing/shares.rs`: the tapes of random sharings
- `src/preprocessing/packing.rs`: branches packed into batches
- `src/preprocessing/execution.rs`: one repetition
- `src/preprocessing/opening.rs`: which repetitions are opened
- `src/preprocessing/proving.rs`: making and verifying proofs
- `src/preprocessing/schedule.rs`: the order in which parallel workers are fed
- `src/preprocessing/laws.rs`: what holds of all of it together
- `app`: parallel execution on async tasks, and a serial form of proofs

The functions of BLAKE3 are trusted to be functions of their arguments; all
else in `src` is proved.
