use rand::Rng;

use reverie::algebra::gf2::BitScalar;
use reverie::algebra::gf2::GF2P8;
use reverie::algebra::Domain;
use reverie::crypto::KeyTree;
use reverie::crypto::TreePRF;
use reverie::crypto::KEY_SIZE;
use reverie::preprocessing::pack_branches;
use reverie::preprocessing::PreprocessingExecution;
use reverie::preprocessing::Proof;
use reverie::Instruction;

fn small_program() -> Vec<Instruction<BitScalar>> {
    vec![
        Instruction::Input(1),
        Instruction::Input(2),
        Instruction::Mul(0, 1, 2),
    ]
}

fn bits(pattern: &[u8]) -> Vec<BitScalar> {
    pattern.iter().map(|b| BitScalar(*b == 1)).collect()
}

#[test]
fn test_preprocessing_n8() {
    let program = small_program();
    let mut rng = rand::thread_rng();
    let seed: [u8; KEY_SIZE] = rng.gen();
    let branch: Vec<BitScalar> = vec![];
    let branches: Vec<&[BitScalar]> = vec![&branch];
    let proof = Proof::<GF2P8>::new(seed, &branches[..], program.iter().cloned());
    assert!(proof.0.verify(&branches[..], program.into_iter()).is_some());
}

#[test]
fn honest_proof_with_branches_is_accepted() {
    let program = vec![
        Instruction::Input(0),
        Instruction::Branch(1),
        Instruction::Branch(2),
        Instruction::AddConst(3, 0, BitScalar(true)),
        Instruction::MulConst(4, 1, BitScalar(true)),
        Instruction::Add(5, 3, 4),
        Instruction::Mul(6, 5, 2),
        Instruction::Mul(7, 6, 9),
        Instruction::Output(7),
    ];
    let one = bits(&[1, 0, 1]);
    let two = bits(&[0; 70]);
    let branches: Vec<&[BitScalar]> = vec![&one, &two];
    let (proof, _) = Proof::<GF2P8>::new([7; KEY_SIZE], &branches[..], program.iter().cloned());
    let output = proof.verify(&branches[..], program.into_iter()).unwrap();
    assert_eq!(output.hidden(), proof.hidden());
}

#[test]
fn proof_is_accepted_on_the_empty_program() {
    let branch: Vec<BitScalar> = vec![];
    let branches: Vec<&[BitScalar]> = vec![&branch];
    let (proof, _) = Proof::<GF2P8>::new([0; KEY_SIZE], &branches[..], std::iter::empty());
    assert!(proof.verify(&branches[..], std::iter::empty()).is_some());
}

#[test]
fn proof_is_refused_for_another_program() {
    let program = small_program();
    let branch: Vec<BitScalar> = vec![];
    let branches: Vec<&[BitScalar]> = vec![&branch];
    let (proof, _) = Proof::<GF2P8>::new([3; KEY_SIZE], &branches[..], program.iter().cloned());
    let mut other = program.clone();
    other.push(Instruction::Mul(3, 1, 0));
    assert!(proof.verify(&branches[..], other.into_iter()).is_none());
}

#[test]
fn proof_is_refused_for_other_branches() {
    let program = small_program();
    let branch: Vec<BitScalar> = vec![];
    let other = bits(&[1]);
    let branches: Vec<&[BitScalar]> = vec![&branch];
    let others: Vec<&[BitScalar]> = vec![&other];
    let (proof, _) = Proof::<GF2P8>::new([4; KEY_SIZE], &branches[..], program.iter().cloned());
    assert!(proof.verify(&others[..], program.into_iter()).is_none());
}

#[test]
fn proof_is_refused_with_another_commitment() {
    let program = small_program();
    let branch: Vec<BitScalar> = vec![];
    let branches: Vec<&[BitScalar]> = vec![&branch];
    let (proof, _) = Proof::<GF2P8>::new([5; KEY_SIZE], &branches[..], program.iter().cloned());
    let mut hidden = proof.hidden().to_vec();
    hidden[0].bytes[0] ^= 1;
    let forged = Proof::<GF2P8>::from_parts(hidden, proof.random().clone());
    assert!(forged.verify(&branches[..], program.into_iter()).is_none());
}

#[test]
fn proof_is_refused_that_hides_the_wrong_number() {
    let program = small_program();
    let branch: Vec<BitScalar> = vec![];
    let branches: Vec<&[BitScalar]> = vec![&branch];
    let (proof, _) = Proof::<GF2P8>::new([6; KEY_SIZE], &branches[..], program.iter().cloned());

    // nothing is hidden
    let tree = TreePRF::new(GF2P8::PREPROCESSING_REPETITIONS, [6; KEY_SIZE]);
    let open = Proof::<GF2P8>::from_parts(proof.hidden().to_vec(), tree);
    assert!(open.open().is_none());
    assert!(open.verify(&branches[..], program.iter().cloned()).is_none());

    // one more than required is hidden
    let leaves = proof.random().expand(GF2P8::PREPROCESSING_REPETITIONS);
    let i = leaves.iter().position(|leaf| leaf.is_some()).unwrap();
    let more = Proof::<GF2P8>::from_parts(
        proof.hidden().to_vec(),
        proof.random().clone().puncture(i),
    );
    assert!(more.verify(&branches[..], program.into_iter()).is_none());
}

#[test]
fn proof_opens_all_but_the_hidden_repetitions() {
    let global = [9; KEY_SIZE];
    let program = small_program();
    let branch: Vec<BitScalar> = vec![];
    let branches: Vec<&[BitScalar]> = vec![&branch];
    let (proof, _) = Proof::<GF2P8>::new(global, &branches[..], program.iter().cloned());
    let roots = TreePRF::expand_full(GF2P8::PREPROCESSING_REPETITIONS, global);
    let leaves = proof.random().expand(GF2P8::PREPROCESSING_REPETITIONS);
    let packed = pack_branches::<GF2P8>(&branches[..]);
    let mut hidden = 0;
    for (root, leaf) in roots.iter().zip(leaves.iter()) {
        match leaf {
            Some(key) => assert_eq!(key, root),
            None => {
                let mut execution = PreprocessingExecution::<GF2P8>::new(*root, &packed);
                execution.prove(&program[..]);
                assert_eq!(execution.done().0, proof.hidden()[hidden]);
                hidden += 1;
            }
        }
    }
    assert_eq!(hidden, GF2P8::ONLINE_REPETITIONS);
    assert_eq!(proof.hidden().len(), GF2P8::ONLINE_REPETITIONS);
    assert_eq!(proof.open().unwrap().len(), 252 - 44);
}

#[test]
fn proof_is_determined_by_its_seed() {
    let program = small_program();
    let branch: Vec<BitScalar> = vec![];
    let branches: Vec<&[BitScalar]> = vec![&branch];
    let make = |seed: u8| {
        Proof::<GF2P8>::new([seed; KEY_SIZE], &branches[..], program.iter().cloned()).0
    };
    assert_eq!(make(1).hidden(), make(1).hidden());
    assert_eq!(make(1).random(), make(1).random());
    assert_eq!(make(1).clone().random(), make(1).random());
    assert_ne!(make(1).random(), make(2).random());
    assert_eq!(make(1).clone().hidden(), make(1).hidden());
    assert_ne!(make(1).hidden(), make(2).hidden());
}

/// The keys of a tree, each with the range of leaves that it stands over.
fn key_ranges(
    tree: &KeyTree,
    start: usize,
    len: usize,
    ranges: &mut Vec<([u8; KEY_SIZE], usize, usize)>,
) {
    match tree {
        KeyTree::Punctured => {}
        KeyTree::Key(key) => ranges.push((*key, start, start + len)),
        KeyTree::Node(left, right) => {
            let middle = len - len / 2;
            key_ranges(left, start, middle, ranges);
            key_ranges(right, start + middle, len / 2, ranges);
        }
    }
}

#[test]
fn tree_holds_no_key_over_a_hidden_leaf() {
    let global = [11; KEY_SIZE];
    let program = small_program();
    let branch: Vec<BitScalar> = vec![];
    let branches: Vec<&[BitScalar]> = vec![&branch];
    let (proof, _) = Proof::<GF2P8>::new(global, &branches[..], program.into_iter());
    let roots = TreePRF::expand_full(GF2P8::PREPROCESSING_REPETITIONS, global);
    let leaves = proof.random().expand(GF2P8::PREPROCESSING_REPETITIONS);
    let mut ranges = vec![];
    key_ranges(&proof.random().root, 0, GF2P8::PREPROCESSING_REPETITIONS, &mut ranges);
    let mut covered = 0;
    for (key, start, end) in ranges {
        assert!(start < end);
        assert_ne!(key, global);
        for i in start..end {
            assert!(leaves[i].is_some());
        }
        for i in 0..GF2P8::PREPROCESSING_REPETITIONS {
            if leaves[i].is_none() {
                assert_ne!(key, roots[i]);
            }
        }
        covered += end - start;
    }
    assert_eq!(covered, 252 - 44);

    // the tree of the global seed, punctured at the hidden leaves
    let mut tree = TreePRF::new(GF2P8::PREPROCESSING_REPETITIONS, global);
    for i in 0..GF2P8::PREPROCESSING_REPETITIONS {
        if leaves[i].is_none() {
            tree = tree.puncture(i);
        }
    }
    assert_eq!(&tree, proof.random());
}

#[test]
fn program_is_not_read_where_the_wrong_number_is_hidden() {
    let tree = TreePRF::new(GF2P8::PREPROCESSING_REPETITIONS, [1; KEY_SIZE]);
    let proof = Proof::<GF2P8>::from_parts(vec![], tree);
    assert!(proof.verify(&[], std::iter::repeat(Instruction::Input(0))).is_none());
}

#[test]
fn each_result_depends_on_its_own_seed() {
    let program = small_program();
    let branch: Vec<BitScalar> = vec![];
    let branches: Vec<&[BitScalar]> = vec![&branch];
    let packed = pack_branches::<GF2P8>(&branches[..]);
    let run = |seeds: &[[u8; KEY_SIZE]]| {
        Proof::<GF2P8>::preprocess(seeds, &packed, program.iter().cloned())
    };
    let seeds = [[1; KEY_SIZE], [2; KEY_SIZE], [3; KEY_SIZE], [4; KEY_SIZE]];
    let all = run(&seeds);
    assert_eq!(all.len(), 4);
    for i in 0..4 {
        let mut execution = PreprocessingExecution::<GF2P8>::new(seeds[i], &packed);
        execution.prove(&program[..]);
        assert_eq!(all[i], execution.done());
        assert_eq!(run(&seeds[i..i + 1])[0], all[i]);
    }
    assert_eq!(run(&[seeds[3], seeds[1]]), vec![all[3].clone(), all[1].clone()]);
    assert_eq!(run(&[]), vec![]);
}
