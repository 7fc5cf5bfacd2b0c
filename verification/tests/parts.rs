use reverie::algebra::gf2::BitBatch;
use reverie::algebra::gf2::BitScalar;
use reverie::algebra::gf2::BitSharing8;
use reverie::algebra::gf2::GF2P8;
use reverie::algebra::reconstruct;
use reverie::algebra::Domain;
use reverie::algebra::RingElement;
use reverie::algebra::RingModule;
use reverie::consts::BATCH_SIZE;
use reverie::consts::CONTEXT_RNG_BEAVER;
use reverie::consts::CONTEXT_RNG_BRANCH_MASK;
use reverie::consts::CONTEXT_RNG_BRANCH_PERMUTE;
use reverie::consts::CONTEXT_RNG_INPUT_MASK;
use reverie::consts::CONTEXT_TREE_LEFT;
use reverie::consts::CONTEXT_TREE_RIGHT;
use reverie::consts::LABEL_RNG_OPEN_PREPROCESSING;
use reverie::consts::LABEL_SCOPE_AGGREGATE_COMMIT;
use reverie::crypto::KeyTree;
use reverie::crypto::TreePRF;
use reverie::crypto::KEY_SIZE;
use reverie::crypto::PRG;
use reverie::fs::Oracle;
use reverie::preprocessing::branch_permutation;
use reverie::preprocessing::feed;
use reverie::preprocessing::pack_branch;
use reverie::preprocessing::pack_branches;
use reverie::preprocessing::Action;
use reverie::preprocessing::Player;
use reverie::preprocessing::PreprocessingExecution;
use reverie::preprocessing::Schedule;
use reverie::preprocessing::ShareGenerator;
use reverie::preprocessing::SharesGenerator;
use reverie::util::random_permutation;
use reverie::util::random_subset;
use reverie::util::read_n;
use reverie::Instruction;

/// Block `n` of the stream of a key, straight from the hash.
fn block(key: &[u8; 32], n: u64) -> [u8; 32] {
    *blake3::keyed_hash(key, &n.to_le_bytes()).as_bytes()
}

/// Batch `n` of the tape of a player in a context.
fn tape_word(context: &str, seed: &[u8; 32], n: u64) -> u64 {
    let first = block(&blake3::derive_key(context, seed), n);
    u64::from_le_bytes(first[..8].try_into().unwrap())
}

fn player_seeds() -> Vec<[u8; KEY_SIZE]> {
    (0..8).map(|p| [p as u8 + 1; KEY_SIZE]).collect()
}

fn generator() -> ShareGenerator<GF2P8> {
    ShareGenerator::new((0..8).map(|p| PRG::new([p; KEY_SIZE])).collect())
}

#[test]
fn hash_is_blake3() {
    let hash = reverie::crypto::Hash::of(b"");
    assert_eq!(hash.as_bytes()[..4], [0xaf, 0x13, 0x49, 0xb9]);
    assert_eq!(hash.as_bytes(), blake3::hash(b"").as_bytes());
    let hash = reverie::crypto::Hash::of(&[1; 32]);
    assert_eq!(hash.as_bytes(), blake3::hash(&[1; 32]).as_bytes());
    assert_ne!(hash.as_bytes(), &[1; 32]);
}

#[test]
fn generator_is_keyed_hash_in_counter_mode() {
    let mut prg = PRG::new([42; KEY_SIZE]);
    assert_eq!(prg.next_block(), block(&[42; 32], 0));
    assert_eq!(prg.next_block(), block(&[42; 32], 1));
    let third = block(&[42; 32], 2);
    let number = u128::from_le_bytes(third[..16].try_into().unwrap());
    assert_eq!(prg.next_below(1000), (number % 1000) as usize);
    assert_eq!(prg.next_below(1), 0);
}

#[test]
fn generator_wraps_around() {
    let mut prg = PRG { key: [1; KEY_SIZE], counter: u64::MAX };
    assert_eq!(prg.next_block(), block(&[1; 32], u64::MAX));
    assert_eq!(prg.next_block(), block(&[1; 32], 0));
}

#[test]
fn player_tapes_are_derived_in_their_contexts() {
    let seed = [5; KEY_SIZE];
    let mut player = Player::new(&seed);
    let input = blake3::derive_key(CONTEXT_RNG_INPUT_MASK, &seed);
    let beaver = blake3::derive_key(CONTEXT_RNG_BEAVER, &seed);
    let branch = blake3::derive_key(CONTEXT_RNG_BRANCH_MASK, &seed);
    assert_eq!(player.input.next_block(), block(&input, 0));
    assert_eq!(player.beaver.next_block(), block(&beaver, 0));
    assert_eq!(player.branch.next_block(), block(&branch, 0));
    assert_ne!(input, beaver);
    assert_ne!(beaver, branch);
    assert_ne!(branch, input);
}

#[test]
fn tree_expands_to_derived_keys() {
    let root = [8; KEY_SIZE];
    let left = blake3::derive_key(CONTEXT_TREE_LEFT, &root);
    let right = blake3::derive_key(CONTEXT_TREE_RIGHT, &root);
    let left_left = blake3::derive_key(CONTEXT_TREE_LEFT, &left);
    let left_right = blake3::derive_key(CONTEXT_TREE_RIGHT, &left);
    assert_eq!(TreePRF::expand_full(0, root), Vec::<[u8; 32]>::new());
    assert_eq!(TreePRF::expand_full(1, root), vec![root]);
    assert_eq!(TreePRF::expand_full(2, root), vec![left, right]);
    assert_eq!(TreePRF::expand_full(3, root), vec![left_left, left_right, right]);
}

#[test]
fn punctured_tree_holds_the_keys_beside_the_path() {
    let root = [8; KEY_SIZE];
    let left = blake3::derive_key(CONTEXT_TREE_LEFT, &root);
    let right = blake3::derive_key(CONTEXT_TREE_RIGHT, &root);
    let left_right = blake3::derive_key(CONTEXT_TREE_RIGHT, &left);
    assert_eq!(TreePRF::new(1, root).root, KeyTree::Key(root));
    assert_eq!(TreePRF::new(1, root).puncture(0).root, KeyTree::Punctured);
    let node = |left, right| KeyTree::Node(Box::new(left), Box::new(right));
    let tree = TreePRF::new(3, root).puncture(0);
    assert_eq!(
        tree.root,
        node(node(KeyTree::Punctured, KeyTree::Key(left_right)), KeyTree::Key(right))
    );
    let tree = tree.puncture(2);
    assert_eq!(
        tree.root,
        node(node(KeyTree::Punctured, KeyTree::Key(left_right)), KeyTree::Punctured)
    );
    assert_eq!(tree.size, 3);
}

#[test]
fn puncturing_takes_out_one_leaf() {
    let root = [2; KEY_SIZE];
    let full = TreePRF::expand_full(13, root);
    for i in 0..13 {
        for j in 0..13 {
            let tree = TreePRF::new(13, root).puncture(i).puncture(j);
            let leaves = tree.expand(13);
            for k in 0..13 {
                if k == i || k == j {
                    assert_eq!(leaves[k], None);
                } else {
                    assert_eq!(leaves[k], Some(full[k]));
                }
            }
        }
    }
}

#[test]
fn subset_is_increasing_and_of_the_required_size() {
    for seed in 0..20 {
        let subset = random_subset(&mut PRG::new([seed; KEY_SIZE]), 252, 44);
        assert_eq!(subset.len(), 44);
        assert!(subset.windows(2).all(|w| w[0] < w[1]));
        assert!(subset.iter().all(|i| *i < 252));
    }
    let mut prg = PRG::new([0; KEY_SIZE]);
    assert_eq!(random_subset(&mut prg, 3, 3), vec![0, 1, 2]);
    assert_eq!(random_subset(&mut prg, 3, 0), Vec::<usize>::new());
    assert_eq!(random_subset(&mut prg, 0, 0), Vec::<usize>::new());
}

#[test]
fn branch_permutation_is_a_permutation() {
    for n in 0..30 {
        let order = branch_permutation(&[n as u8; KEY_SIZE], n);
        let mut sorted = order.clone();
        sorted.sort();
        assert_eq!(sorted, (0..n).collect::<Vec<usize>>());
        assert_eq!(order, branch_permutation(&[n as u8; KEY_SIZE], n));
    }
    let seed = [77; KEY_SIZE];
    let key = blake3::derive_key(CONTEXT_RNG_BRANCH_PERMUTE, &seed);
    assert_eq!(branch_permutation(&seed, 50), random_permutation(&mut PRG::new(key), 50));
    assert_ne!(branch_permutation(&seed, 50), (0..50).collect::<Vec<usize>>());

    // two branches are swapped just if the first draw is odd
    let draw = u128::from_le_bytes(block(&key, 0)[..16].try_into().unwrap());
    let expected = if draw % 2 == 1 { vec![1, 0] } else { vec![0, 1] };
    assert_eq!(branch_permutation(&seed, 2), expected);
}

#[test]
fn sharings_are_read_along_the_tapes() {
    let seeds = player_seeds();
    let mut shares: SharesGenerator<GF2P8> = SharesGenerator::new(&seeds[..]);
    for k in 0..150u64 {
        let mut input = 0u8;
        let mut beaver = 0u8;
        let mut branch = 0u8;
        for p in 0..8 {
            let bit = |context| ((tape_word(context, &seeds[p], k / 64) >> (k % 64)) & 1) as u8;
            input |= bit(CONTEXT_RNG_INPUT_MASK) << p;
            beaver |= bit(CONTEXT_RNG_BEAVER) << p;
            branch |= bit(CONTEXT_RNG_BRANCH_MASK) << p;
        }
        assert_eq!(shares.input.next(), BitSharing8(input));
        assert_eq!(shares.beaver.next(), BitSharing8(beaver));
        assert_eq!(shares.branch.next(), BitSharing8(branch));
    }
}

#[test]
fn batches_belong_to_the_last_sharing() {
    let mut shares = generator();
    assert_eq!(shares.batches(), &[BitBatch(0); 8][..]);
    for k in 0..130u64 {
        shares.next();
        for p in 0..8 {
            let word = block(&[p as u8; 32], k / 64);
            let word = u64::from_le_bytes(word[..8].try_into().unwrap());
            assert_eq!(shares.batches()[p], BitBatch(word));
        }
    }
}

#[test]
fn emptied_generator_goes_on_with_the_next_batch() {
    let mut shares = generator();
    assert!(shares.is_empty());
    shares.empty();
    assert!(shares.is_empty());
    let mut all = generator();
    let stream: Vec<BitSharing8> = (0..130).map(|_| all.next()).collect();
    assert_eq!(shares.next(), stream[0]);
    assert!(!shares.is_empty());
    shares.empty();
    assert!(shares.is_empty());
    assert_eq!(shares.next(), stream[64]);
    for i in 65..128 {
        assert!(!shares.is_empty());
        assert_eq!(shares.next(), stream[i]);
    }
    assert!(shares.is_empty());
    assert_eq!(shares.next(), stream[128]);
}

#[test]
fn branches_are_padded_with_zeros() {
    let ones = vec![BitScalar(true); 65];
    assert_eq!(pack_branch::<GF2P8>(&[]), vec![]);
    assert_eq!(pack_branch::<GF2P8>(&ones[..3]), vec![BitBatch(7)]);
    assert_eq!(pack_branch::<GF2P8>(&ones[..64]), vec![BitBatch(u64::MAX)]);
    assert_eq!(pack_branch::<GF2P8>(&ones[..]), vec![BitBatch(u64::MAX), BitBatch(1)]);
    let mixed = [BitScalar(false), BitScalar(true), BitScalar(false), BitScalar(true)];
    assert_eq!(pack_branch::<GF2P8>(&mixed), vec![BitBatch(10)]);
    let branches: Vec<&[BitScalar]> = vec![&mixed, &[], &ones];
    assert_eq!(
        pack_branches::<GF2P8>(&branches[..]),
        vec![vec![BitBatch(10)], vec![], vec![BitBatch(u64::MAX), BitBatch(1)]]
    );
}

#[test]
fn packed_branches_hold_every_element() {
    let branch: Vec<BitScalar> = (0..200).map(|i| BitScalar(i % 3 == 0)).collect();
    let packed = pack_branch::<GF2P8>(&branch);
    for j in 0..256 {
        let expected = if j < 200 { branch[j] } else { BitScalar(false) };
        assert_eq!(packed[j / 64].get(j % 64), expected);
    }
}

#[test]
fn vectors_over_bits() {
    let elems: Vec<BitScalar> = (0..8).map(|i| BitScalar(i == 1 || i == 2 || i == 7)).collect();
    let sharing = BitSharing8::pack(&elems);
    assert_eq!(sharing, BitSharing8(0x86));
    assert_eq!(reconstruct::<BitScalar, BitSharing8>(&sharing), BitScalar(true));
    assert_eq!(reconstruct::<BitScalar, BitSharing8>(&BitSharing8(0x82)), BitScalar(false));
    assert_eq!(<BitBatch as RingModule<BitScalar>>::zero(), BitBatch(0));
    assert_eq!(BitScalar(true).plus(BitScalar(true)), BitScalar(false));
    assert_eq!(BitScalar(true).minus(BitScalar(false)), BitScalar(true));
    assert_eq!(BitScalar(true).times(BitScalar(false)), BitScalar(false));
    let mut sharings = vec![BitSharing8(0); 64];
    let mut batches = vec![BitBatch(0); 8];
    batches[3] = BitBatch(1 << 40);
    GF2P8::convert(&mut sharings[..], &batches[..]);
    for (i, sharing) in sharings.iter().enumerate() {
        assert_eq!(*sharing, BitSharing8(if i == 40 { 8 } else { 0 }));
    }
}

#[test]
fn oracle_answers_to_what_was_sent() {
    let hash = reverie::crypto::Hash { bytes: [3; 32] };
    let mut oracle = Oracle::new();
    let mut scope = oracle.scope(LABEL_SCOPE_AGGREGATE_COMMIT);
    scope.join(&hash);
    scope.update(&[1, 2]);
    oracle.close(scope);
    let mut message = vec![3; 32];
    message.extend_from_slice(&[1, 2]);
    let message = blake3::derive_key(LABEL_SCOPE_AGGREGATE_COMMIT, &message);
    let key = blake3::derive_key(LABEL_RNG_OPEN_PREPROCESSING, &message);
    assert_eq!(oracle.prg(LABEL_RNG_OPEN_PREPROCESSING).next_block(), block(&key, 0));
}

#[test]
fn repetition_commits_to_players_corrections_and_branches() {
    let root = [6; KEY_SIZE];
    let ones = vec![BitScalar(true); 2];
    let branches: Vec<&[BitScalar]> = vec![&ones];
    let mut execution =
        PreprocessingExecution::<GF2P8>::new(root, &pack_branches::<GF2P8>(&branches[..]));
    execution.prove(&[Instruction::Input(1), Instruction::Input(2), Instruction::Mul(0, 1, 2)]);
    let (union, commitments) = execution.done();

    let seeds = TreePRF::expand_full(8, root);
    let mut shares: SharesGenerator<GF2P8> = SharesGenerator::new(&seeds[..]);
    let a = reconstruct::<BitScalar, BitSharing8>(&shares.input.next());
    let b = reconstruct::<BitScalar, BitSharing8>(&shares.input.next());
    let ab = reconstruct::<BitScalar, BitSharing8>(&shares.beaver.next());
    let correction = (a.0 && b.0) != ab.0;
    for p in 0..8 {
        let mut message = seeds[p].to_vec();
        if p == 0 {
            message.push(correction as u8);
        }
        assert_eq!(commitments[p].as_bytes(), blake3::hash(&message).as_bytes());
    }

    let masked: Vec<u8> = (0..64)
        .map(|j| {
            let mask = reconstruct::<BitScalar, BitSharing8>(&shares.branch.next());
            ((j < 2) != mask.0) as u8
        })
        .collect();
    let mut message: Vec<u8> = commitments.iter().flat_map(|c| c.bytes).collect();
    message.extend_from_slice(blake3::hash(&masked).as_bytes());
    assert_eq!(union.as_bytes(), blake3::hash(&message).as_bytes());
}

#[test]
fn program_may_be_executed_in_parts() {
    let program = [
        Instruction::Input(1),
        Instruction::Branch(2),
        Instruction::Mul(0, 1, 2),
        Instruction::Add(3, 0, 1),
        Instruction::Mul(4, 3, 0),
    ];
    let branches: Vec<Vec<BitBatch>> = vec![vec![]];
    let mut at_once = PreprocessingExecution::<GF2P8>::new([1; KEY_SIZE], &branches);
    at_once.prove(&program);
    let expected = at_once.done();
    for i in 0..=program.len() {
        let mut parts = PreprocessingExecution::<GF2P8>::new([1; KEY_SIZE], &branches);
        parts.prove(&program[..i]);
        parts.prove(&program[i..]);
        let result = parts.done();
        assert_eq!(result.0, expected.0);
        assert_eq!(result.1, expected.1);
    }
}

#[test]
fn program_is_read_in_parts() {
    let mut numbers = 0..5;
    assert_eq!(read_n(&mut numbers, 2), vec![0, 1]);
    assert_eq!(read_n(&mut numbers, 0), Vec::<i32>::new());
    assert_eq!(read_n(&mut numbers, 7), vec![2, 3, 4]);
    assert_eq!(read_n(&mut numbers, 7), Vec::<i32>::new());

    let mut program = (0..BATCH_SIZE + 3).map(|i| Instruction::<BitScalar>::Input(i));
    let first = feed::<GF2P8, _>(&mut program).unwrap();
    assert_eq!(first.len(), BATCH_SIZE);
    assert_eq!(first[1], Instruction::Input(1));
    let second = feed::<GF2P8, _>(&mut program).unwrap();
    assert_eq!(second.len(), 3);
    assert_eq!(second[0], Instruction::Input(BATCH_SIZE));
    assert!(feed::<GF2P8, _>(&mut program).is_none());
}

#[test]
fn schedule_feeds_and_collects_every_part() {
    for parts in 0..10 {
        let mut schedule = Schedule::new();
        let mut actions = vec![];
        let mut left = parts;
        loop {
            assert!(schedule.scheduled <= 2);
            let action = schedule.action();
            actions.push(action);
            match action {
                Action::Feed => {
                    schedule.fed(left > 0);
                    left -= if left > 0 { 1 } else { 0 };
                }
                Action::Collect => schedule.collected(),
                Action::Finish => break,
            }
        }
        assert_eq!(left, 0);
        let collected = actions.iter().filter(|a| **a == Action::Collect).count();
        assert_eq!(collected, parts);
        assert_eq!(actions[..2], [Action::Feed, Action::Feed]);
    }
}

#[test]
fn program_is_streamed() {
    let total = 4 * BATCH_SIZE + 5;
    let mut program = (0..total).map(|i| Instruction::<BitScalar>::Input(i));
    let mut schedule = Schedule::new();
    let mut under_way: Vec<usize> = vec![];
    let mut finished = 0;
    loop {
        match schedule.action() {
            Action::Feed => match feed::<GF2P8, _>(&mut program) {
                Some(part) => {
                    under_way.push(part.len());
                    schedule.fed(true);
                }
                None => schedule.fed(false),
            },
            Action::Collect => {
                finished += under_way.remove(0);
                schedule.collected();
            }
            Action::Finish => break,
        }
        assert!(under_way.iter().sum::<usize>() <= 2 * BATCH_SIZE);
        assert_eq!(under_way.len(), schedule.scheduled);
    }
    assert_eq!(finished, total);
}

#[test]
fn batches_are_drawn_only_when_needed() {
    let mut shares = generator();
    let mut rounds = 0;
    let mut last = shares.batches().to_vec();
    for k in 1..=200usize {
        shares.next();
        if shares.batches() != &last[..] {
            rounds += 1;
            last = shares.batches().to_vec();
        }
        assert_eq!(rounds, (k + 63) / 64);
    }
    shares.empty();
    assert_eq!(shares.batches(), &last[..]);
}
