//! Parameters, and the labels that keep the uses of one key apart.

use vstd::prelude::*;

verus! {

/// Number of instructions that are handed to the executions at a time.
pub const BATCH_SIZE: usize = 100_000;

/// Derives the tape of input masks of a player.
pub const CONTEXT_RNG_INPUT_MASK: &'static str = "reverie preprocessing: input mask tape";

/// Derives the tape of branch masks of a player.
pub const CONTEXT_RNG_BRANCH_MASK: &'static str = "reverie preprocessing: branch mask tape";

/// Derives the tape of Beaver triples of a player.
pub const CONTEXT_RNG_BEAVER: &'static str = "reverie preprocessing: beaver tape";

/// Derives the order in which the masked branches are committed to.
pub const CONTEXT_RNG_BRANCH_PERMUTE: &'static str = "reverie preprocessing: branch permutation";

/// Derives the key of a left child in the tree of keys.
pub const CONTEXT_TREE_LEFT: &'static str = "reverie tree prf: left child";

/// Derives the key of a right child in the tree of keys.
pub const CONTEXT_TREE_RIGHT: &'static str = "reverie tree prf: right child";

/// Scope in which the commitments of all repetitions are sent to the oracle.
pub const LABEL_SCOPE_AGGREGATE_COMMIT: &'static str = "reverie oracle: aggregate commitments";

/// Response of the oracle that picks the hidden repetitions.
pub const LABEL_RNG_OPEN_PREPROCESSING: &'static str = "reverie oracle: open preprocessing";

/// Every use of a key has a label of its own: no two labels are the same text.
pub proof fn labels_differ()
    ensures
        seq![
            CONTEXT_RNG_INPUT_MASK@,
            CONTEXT_RNG_BRANCH_MASK@,
            CONTEXT_RNG_BEAVER@,
            CONTEXT_RNG_BRANCH_PERMUTE@,
            CONTEXT_TREE_LEFT@,
            CONTEXT_TREE_RIGHT@,
            LABEL_SCOPE_AGGREGATE_COMMIT@,
            LABEL_RNG_OPEN_PREPROCESSING@,
        ].no_duplicates(),
{
    reveal_strlit("reverie preprocessing: input mask tape");
    reveal_strlit("reverie preprocessing: branch mask tape");
    reveal_strlit("reverie preprocessing: beaver tape");
    reveal_strlit("reverie preprocessing: branch permutation");
    reveal_strlit("reverie tree prf: left child");
    reveal_strlit("reverie tree prf: right child");
    reveal_strlit("reverie oracle: aggregate commitments");
    reveal_strlit("reverie oracle: open preprocessing");
    assert(CONTEXT_RNG_INPUT_MASK@.len() == 38);
    assert(CONTEXT_RNG_BRANCH_MASK@.len() == 39);
    assert(CONTEXT_RNG_BEAVER@.len() == 34 && CONTEXT_RNG_BEAVER@[8] == 'p');
    assert(CONTEXT_RNG_BRANCH_PERMUTE@.len() == 41);
    assert(CONTEXT_TREE_LEFT@.len() == 28);
    assert(CONTEXT_TREE_RIGHT@.len() == 29);
    assert(LABEL_SCOPE_AGGREGATE_COMMIT@.len() == 37);
    assert(LABEL_RNG_OPEN_PREPROCESSING@.len() == 34 && LABEL_RNG_OPEN_PREPROCESSING@[8] == 'o');
}

} // verus!
