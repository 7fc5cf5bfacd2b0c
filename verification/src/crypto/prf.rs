//! A puncturable pseudo-random function, built as a binary tree of keys.

use vstd::prelude::*;

use crate::consts::CONTEXT_TREE_LEFT;
use crate::consts::CONTEXT_TREE_RIGHT;
use crate::crypto::derived_key;
use crate::crypto::kdf;
use crate::crypto::KEY_SIZE;

verus! {

/// A tree over a range of leaves. A key stands for the whole range below it,
/// a puncture for a range of which nothing is known.
#[derive(Debug, PartialEq, Eq)]
pub enum KeyTree {
    Punctured,
    Key([u8; KEY_SIZE]),
    Node(Box<KeyTree>, Box<KeyTree>),
}

/// A pseudo-random function on `0..size`, some points of which may have been
/// taken out.
#[derive(Debug, PartialEq, Eq)]
pub struct TreePRF {
    pub size: usize,
    pub root: KeyTree,
}

/// The key of the left child of a key.
pub open spec fn left_key(key: [u8; KEY_SIZE]) -> [u8; KEY_SIZE] {
    derived_key(CONTEXT_TREE_LEFT@, key@)
}

/// The key of the right child of a key.
pub open spec fn right_key(key: [u8; KEY_SIZE]) -> [u8; KEY_SIZE] {
    derived_key(CONTEXT_TREE_RIGHT@, key@)
}

/// The `n` leaves below a key; the left child has the odd one.
pub open spec fn key_leaves(key: [u8; KEY_SIZE], n: nat) -> Seq<[u8; KEY_SIZE]>
    decreases n,
{
    if n == 0 {
        Seq::empty()
    } else if n == 1 {
        seq![key]
    } else {
        key_leaves(left_key(key), (n - n / 2) as nat) + key_leaves(right_key(key), n / 2)
    }
}

/// There are `n` leaves below a key.
pub proof fn lemma_key_leaves_len(key: [u8; KEY_SIZE], n: nat)
    ensures
        key_leaves(key, n).len() == n,
    decreases n,
{
    if n > 1 {
        lemma_key_leaves_len(left_key(key), (n - n / 2) as nat);
        lemma_key_leaves_len(right_key(key), n / 2);
    }
}

/// The turns from the root of a tree over `n` leaves down to leaf `i`, `true` to
/// the right. The left half has the odd leaf.
pub open spec fn path_to(n: nat, i: nat) -> Seq<bool>
    decreases n,
{
    if n <= 1 {
        Seq::empty()
    } else if i < n - n / 2 {
        seq![false] + path_to((n - n / 2) as nat, i)
    } else {
        seq![true] + path_to(n / 2, (i - (n - n / 2)) as nat)
    }
}

/// The key that is derived from a key along a path, one child after the other.
pub open spec fn key_along(key: [u8; KEY_SIZE], path: Seq<bool>) -> [u8; KEY_SIZE]
    decreases path.len(),
{
    if path.len() == 0 {
        key
    } else {
        let context = if path.last() {
            CONTEXT_TREE_RIGHT@
        } else {
            CONTEXT_TREE_LEFT@
        };
        derived_key(context, key_along(key, path.drop_last())@)
    }
}

proof fn lemma_key_along(key: [u8; KEY_SIZE], right: bool, path: Seq<bool>)
    ensures
        key_along(key, seq![right] + path) == key_along(
            if right {
                right_key(key)
            } else {
                left_key(key)
            },
            path,
        ),
    decreases path.len(),
{
    let whole = seq![right] + path;
    if path.len() == 0 {
        assert(whole.drop_last() =~= Seq::empty());
        assert(key_along(key, whole.drop_last()) == key);
    } else {
        lemma_key_along(key, right, path.drop_last());
        assert(whole.drop_last() =~= seq![right] + path.drop_last());
    }
}

/// A leaf is the key that is derived along the path to it, where each turn has
/// a context of its own.
pub proof fn leaf_is_derived_along_its_path(key: [u8; KEY_SIZE], n: nat, i: nat)
    requires
        i < n,
    ensures
        key_leaves(key, n).len() == n,
        key_leaves(key, n)[i as int] == key_along(key, path_to(n, i)),
    decreases n,
{
    lemma_key_leaves_len(key, n);
    if n > 1 {
        let middle = (n - n / 2) as nat;
        lemma_key_leaves_len(left_key(key), middle);
        lemma_key_leaves_len(right_key(key), n / 2);
        if i < middle {
            leaf_is_derived_along_its_path(left_key(key), middle, i);
            lemma_key_along(key, false, path_to(middle, i));
        } else {
            leaf_is_derived_along_its_path(right_key(key), n / 2, (i - middle) as nat);
            lemma_key_along(key, true, path_to(n / 2, (i - middle) as nat));
        }
    }
}

/// The paths to two leaves part at some turn: no leaf is derived in the way of
/// another, or from another.
pub proof fn paths_part(n: nat, i: nat, j: nat)
    requires
        i < j < n,
    ensures
        exists|k: int|
            0 <= k < path_to(n, i).len() && k < path_to(n, j).len() && #[trigger] path_to(n, i)[k]
                != path_to(n, j)[k] && path_to(n, i).take(k) == path_to(n, j).take(k),
    decreases n,
{
    let (p, q) = (path_to(n, i), path_to(n, j));
    let middle = (n - n / 2) as nat;
    if i < middle && middle <= j {
        assert(p[0] != q[0]);
        assert(p.take(0) =~= q.take(0));
    } else {
        let (x, y) = if j < middle {
            paths_part(middle, i, j);
            (path_to(middle, i), path_to(middle, j))
        } else {
            paths_part(n / 2, (i - middle) as nat, (j - middle) as nat);
            (path_to(n / 2, (i - middle) as nat), path_to(n / 2, (j - middle) as nat))
        };
        let k = choose|k: int|
            0 <= k < x.len() && k < y.len() && #[trigger] x[k] != y[k] && x.take(k) == y.take(k);
        assert(p.skip(1) =~= x && q.skip(1) =~= y);
        assert(p[k + 1] == x[k] && q[k + 1] == y[k]);
        assert(p.take(k + 1) =~= seq![p[0]] + x.take(k));
        assert(q.take(k + 1) =~= seq![q[0]] + y.take(k));
    }
}

impl KeyTree {
    /// The `n` leaves below the tree, `None` where it is punctured.
    pub open spec fn leaves(self, n: nat) -> Seq<Option<[u8; KEY_SIZE]>>
        decreases self,
    {
        match self {
            KeyTree::Punctured => Seq::new(n, |i: int| None),
            KeyTree::Key(key) => Seq::new(n, |i: int| Some(key_leaves(key, n)[i])),
            KeyTree::Node(left, right) => left.leaves((n - n / 2) as nat) + right.leaves(n / 2),
        }
    }

    /// For each of the `n` leaves below the tree, whether it is known. This
    /// depends on the shape of the tree alone.
    pub open spec fn known(self, n: nat) -> Seq<bool>
        decreases self,
    {
        match self {
            KeyTree::Punctured => Seq::new(n, |i: int| false),
            KeyTree::Key(key) => Seq::new(n, |i: int| true),
            KeyTree::Node(left, right) => left.known((n - n / 2) as nat) + right.known(n / 2),
        }
    }

    /// A key of the tree stands over leaf `i` of its `n` leaves.
    pub open spec fn covers(self, n: nat, i: nat) -> bool
        decreases self,
    {
        match self {
            KeyTree::Punctured => false,
            KeyTree::Key(key) => i < n,
            KeyTree::Node(left, right) => if i < n - n / 2 {
                left.covers((n - n / 2) as nat, i)
            } else {
                right.covers(n / 2, (i - (n - n / 2)) as nat)
            },
        }
    }

    /// A key of the tree stands over none of its `n` leaves.
    pub open spec fn has_idle_key(self, n: nat) -> bool
        decreases self,
    {
        match self {
            KeyTree::Punctured => false,
            KeyTree::Key(key) => n == 0,
            KeyTree::Node(left, right) => left.has_idle_key((n - n / 2) as nat)
                || right.has_idle_key(n / 2),
        }
    }

    /// The tree has the shape of one over `n` leaves: every key stands over
    /// some leaves, every puncture over just one, and every node over leaves on
    /// both sides.
    pub open spec fn fits(self, n: nat) -> bool
        decreases self,
    {
        match self {
            KeyTree::Punctured => n == 1,
            KeyTree::Key(key) => n >= 1,
            KeyTree::Node(left, right) => {
                &&& n >= 2
                &&& left.fits((n - n / 2) as nat)
                &&& right.fits(n / 2)
            },
        }
    }

    /// The tree over the `n` leaves of a key without leaf `i`: it holds the keys
    /// beside the path to the leaf, and no other.
    pub open spec fn without_key_leaf(key: [u8; KEY_SIZE], n: nat, i: nat) -> KeyTree
        decreases n,
    {
        if n <= 1 {
            KeyTree::Punctured
        } else {
            let middle = (n - n / 2) as nat;
            if i < middle {
                KeyTree::Node(
                    Box::new(KeyTree::without_key_leaf(left_key(key), middle, i)),
                    Box::new(KeyTree::Key(right_key(key))),
                )
            } else {
                KeyTree::Node(
                    Box::new(KeyTree::Key(left_key(key))),
                    Box::new(
                        KeyTree::without_key_leaf(right_key(key), n / 2, (i - middle) as nat),
                    ),
                )
            }
        }
    }

    /// The tree without leaf `i` of its `n` leaves.
    pub open spec fn without(self, n: nat, i: nat) -> KeyTree
        decreases self,
    {
        match self {
            KeyTree::Punctured => KeyTree::Punctured,
            KeyTree::Key(key) => KeyTree::without_key_leaf(key, n, i),
            KeyTree::Node(left, right) => {
                let middle = (n - n / 2) as nat;
                if i < middle {
                    KeyTree::Node(Box::new(left.without(middle, i)), right)
                } else {
                    KeyTree::Node(left, Box::new(right.without(n / 2, (i - middle) as nat)))
                }
            },
        }
    }

    /// The tree without some of its `n` leaves, taken out in turn.
    pub open spec fn without_all(self, n: nat, list: Seq<usize>) -> KeyTree
        decreases list.len(),
    {
        if list.len() == 0 {
            self
        } else {
            self.without_all(n, list.drop_last()).without(n, list.last() as nat)
        }
    }

    /// A leaf is known where a key stands over it.
    pub proof fn lemma_known_covers(self, n: nat, i: nat)
        requires
            i < n,
        ensures
            self.known(n)[i as int] == self.covers(n, i),
        decreases self,
    {
        match self {
            KeyTree::Punctured => {},
            KeyTree::Key(key) => {},
            KeyTree::Node(left, right) => {
                let middle = (n - n / 2) as nat;
                left.lemma_leaves_known(middle);
                right.lemma_leaves_known(n / 2);
                if i < middle {
                    left.lemma_known_covers(middle, i);
                } else {
                    right.lemma_known_covers(n / 2, (i - middle) as nat);
                }
            },
        }
    }

    /// A tree of the right shape has no key that stands over no leaf.
    pub proof fn lemma_fits_no_idle_key(self, n: nat)
        requires
            self.fits(n),
        ensures
            !self.has_idle_key(n),
        decreases self,
    {
        match self {
            KeyTree::Punctured => {},
            KeyTree::Key(key) => {},
            KeyTree::Node(left, right) => {
                left.lemma_fits_no_idle_key((n - n / 2) as nat);
                right.lemma_fits_no_idle_key(n / 2);
            },
        }
    }

    proof fn lemma_without_key_leaf_fits(key: [u8; KEY_SIZE], n: nat, i: nat)
        requires
            i < n,
        ensures
            KeyTree::without_key_leaf(key, n, i).fits(n),
        decreases n,
    {
        reveal_with_fuel(KeyTree::fits, 2);
        if n > 1 {
            let middle = (n - n / 2) as nat;
            if i < middle {
                KeyTree::lemma_without_key_leaf_fits(left_key(key), middle, i);
            } else {
                KeyTree::lemma_without_key_leaf_fits(right_key(key), n / 2, (i - middle) as nat);
            }
        }
    }

    /// Taking out a leaf keeps the shape of the tree right.
    pub proof fn lemma_without_fits(self, n: nat, i: nat)
        requires
            i < n,
            self.fits(n),
        ensures
            self.without(n, i).fits(n),
        decreases self,
    {
        match self {
            KeyTree::Punctured => {},
            KeyTree::Key(key) => {
                KeyTree::lemma_without_key_leaf_fits(key, n, i);
            },
            KeyTree::Node(left, right) => {
                let middle = (n - n / 2) as nat;
                if i < middle {
                    left.lemma_without_fits(middle, i);
                } else {
                    right.lemma_without_fits(n / 2, (i - middle) as nat);
                }
            },
        }
    }

    /// Taking out some leaves keeps the shape of the tree right.
    pub proof fn lemma_without_all_fits(self, n: nat, list: Seq<usize>)
        requires
            self.fits(n),
            forall|j: int| 0 <= j < list.len() ==> #[trigger] list[j] < n,
        ensures
            self.without_all(n, list).fits(n),
        decreases list.len(),
    {
        if list.len() > 0 {
            self.lemma_without_all_fits(n, list.drop_last());
            self.without_all(n, list.drop_last()).lemma_without_fits(n, list.last() as nat);
        }
    }

    /// A leaf has a value where the shape of the tree says that it is known.
    pub proof fn lemma_leaves_known(self, n: nat)
        ensures
            self.leaves(n).len() == n,
            self.known(n).len() == n,
            forall|i: int| #![auto] 0 <= i < n ==> self.known(n)[i] == (self.leaves(n)[i] is Some),
        decreases self,
    {
        match self {
            KeyTree::Punctured => {},
            KeyTree::Key(key) => {},
            KeyTree::Node(left, right) => {
                left.lemma_leaves_known((n - n / 2) as nat);
                right.lemma_leaves_known(n / 2);
            },
        }
    }

    /// What each form of a tree has at leaf `i` of `n`: a puncture has nothing,
    /// a key has what is derived along the path to the leaf, and a node has what
    /// its left side has there, or its right side behind the left one.
    pub proof fn leaf_of_each_form(
        key: [u8; KEY_SIZE],
        left: KeyTree,
        right: KeyTree,
        n: nat,
        i: nat,
    )
        requires
            i < n,
        ensures
            KeyTree::Punctured.leaves(n)[i as int] is None,
            KeyTree::Key(key).leaves(n)[i as int] == Some(key_along(key, path_to(n, i))),
            KeyTree::Node(Box::new(left), Box::new(right)).leaves(n)[i as int] == (if i < n - n / 2 {
                left.leaves((n - n / 2) as nat)[i as int]
            } else {
                right.leaves(n / 2)[i - (n - n / 2)]
            }),
    {
        left.lemma_leaves_known((n - n / 2) as nat);
        right.lemma_leaves_known(n / 2);
        leaf_is_derived_along_its_path(key, n, i);
        reveal_with_fuel(KeyTree::leaves, 2);
    }

    /// Appends the `n` leaves below a key.
    fn push_key_leaves(key: [u8; KEY_SIZE], n: usize, out: &mut Vec<[u8; KEY_SIZE]>)
        ensures
            final(out)@ == old(out)@ + key_leaves(key, n as nat),
        decreases n,
    {
        if n == 1 {
            out.push(key);
        } else if n > 1 {
            let left = kdf(CONTEXT_TREE_LEFT, key.as_slice());
            let right = kdf(CONTEXT_TREE_RIGHT, key.as_slice());
            Self::push_key_leaves(left, n - n / 2, out);
            Self::push_key_leaves(right, n / 2, out);
        }
    }

    /// Appends the `n` leaves below the tree.
    fn push_leaves(&self, n: usize, out: &mut Vec<Option<[u8; KEY_SIZE]>>)
        ensures
            final(out)@ == old(out)@ + self.leaves(n as nat),
        decreases self,
    {
        match self {
            KeyTree::Punctured => {
                let mut i: usize = 0;
                while i < n
                    invariant
                        i <= n,
                        out@ == old(out)@ + Seq::new(i as nat, |j: int| None::<[u8; KEY_SIZE]>),
                    decreases n - i,
                {
                    out.push(None);
                    i = i + 1;
                }
            },
            KeyTree::Key(key) => {
                let mut keys: Vec<[u8; KEY_SIZE]> = Vec::new();
                Self::push_key_leaves(*key, n, &mut keys);
                proof {
                    lemma_key_leaves_len(*key, n as nat);
                }
                let mut i: usize = 0;
                while i < n
                    invariant
                        i <= n,
                        keys@.len() == n,
                        keys@ == key_leaves(*key, n as nat),
                        out@ == old(out)@ + Seq::new(i as nat, |j: int| Some(keys@[j])),
                    decreases n - i,
                {
                    out.push(Some(keys[i]));
                    i = i + 1;
                }
            },
            KeyTree::Node(left, right) => {
                left.push_leaves(n - n / 2, out);
                right.push_leaves(n / 2, out);
            },
        }
    }

    /// The tree over the `n` leaves of a key without leaf `i`: it holds the
    /// keys beside the path to the leaf.
    fn puncture_key(key: [u8; KEY_SIZE], n: usize, i: usize) -> (tree: KeyTree)
        requires
            i < n,
        ensures
            tree == KeyTree::without_key_leaf(key, n as nat, i as nat),
            tree.leaves(n as nat) == KeyTree::Key(key).leaves(n as nat).update(i as int, None),
        decreases n,
    {
        if n == 1 {
            return KeyTree::Punctured;
        }
        let left = kdf(CONTEXT_TREE_LEFT, key.as_slice());
        let right = kdf(CONTEXT_TREE_RIGHT, key.as_slice());
        let middle: usize = n - n / 2;
        proof {
            lemma_key_leaves_len(left, middle as nat);
            lemma_key_leaves_len(right, (n / 2) as nat);
            assert(KeyTree::Key(key).leaves(n as nat) =~= KeyTree::Key(left).leaves(middle as nat)
                + KeyTree::Key(right).leaves((n / 2) as nat));
        }
        if i < middle {
            let punctured = Self::puncture_key(left, middle, i);
            KeyTree::Node(Box::new(punctured), Box::new(KeyTree::Key(right)))
        } else {
            let punctured = Self::puncture_key(right, n / 2, i - middle);
            KeyTree::Node(Box::new(KeyTree::Key(left)), Box::new(punctured))
        }
    }

    /// The tree without leaf `i` of its `n` leaves.
    fn puncture(self, n: usize, i: usize) -> (tree: KeyTree)
        requires
            i < n,
        ensures
            tree == self.without(n as nat, i as nat),
            tree.leaves(n as nat) == self.leaves(n as nat).update(i as int, None),
        decreases self,
    {
        match self {
            KeyTree::Punctured => KeyTree::Punctured,
            KeyTree::Key(key) => Self::puncture_key(key, n, i),
            KeyTree::Node(left, right) => {
                let middle: usize = n - n / 2;
                proof {
                    left.lemma_leaves_known(middle as nat);
                    right.lemma_leaves_known((n / 2) as nat);
                }
                if i < middle {
                    let punctured = (*left).puncture(middle, i);
                    KeyTree::Node(Box::new(punctured), right)
                } else {
                    let punctured = (*right).puncture(n / 2, i - middle);
                    KeyTree::Node(left, Box::new(punctured))
                }
            },
        }
    }

    /// A copy of the tree.
    fn copy(&self) -> (tree: KeyTree)
        ensures
            tree == *self,
        decreases self,
    {
        match self {
            KeyTree::Punctured => KeyTree::Punctured,
            KeyTree::Key(key) => KeyTree::Key(*key),
            KeyTree::Node(left, right) => KeyTree::Node(
                Box::new(left.copy()),
                Box::new(right.copy()),
            ),
        }
    }
}

impl Clone for KeyTree {
    fn clone(&self) -> (tree: KeyTree)
        ensures
            tree == *self,
    {
        self.copy()
    }
}

impl Clone for TreePRF {
    fn clone(&self) -> (tree: TreePRF)
        ensures
            tree == *self,
    {
        TreePRF { size: self.size, root: self.root.copy() }
    }
}

impl TreePRF {
    /// The values of the function, `None` at the points that were taken out.
    pub open spec fn values(self) -> Seq<Option<[u8; KEY_SIZE]>> {
        self.root.leaves(self.size as nat)
    }

    /// The tree has the shape of one over the points of the function.
    pub open spec fn wf(self) -> bool {
        self.root.fits(self.size as nat)
    }

    /// The function on `0..size` below a key.
    pub fn new(size: usize, key: [u8; KEY_SIZE]) -> (tree: TreePRF)
        ensures
            tree.size == size,
            tree.root == KeyTree::Key(key),
            size > 0 ==> tree.wf(),
            tree.values() == Seq::new(size as nat, |i: int| Some(key_leaves(key, size as nat)[i])),
    {
        TreePRF { size, root: KeyTree::Key(key) }
    }

    /// Takes a point out of the function and leaves all others as they are.
    pub fn puncture(self, i: usize) -> (tree: TreePRF)
        requires
            i < self.size,
        ensures
            tree.size == self.size,
            tree.root == self.root.without(self.size as nat, i as nat),
            self.wf() ==> tree.wf(),
            tree.values() == self.values().update(i as int, None),
    {
        proof {
            if self.wf() {
                self.root.lemma_without_fits(self.size as nat, i as nat);
            }
        }
        TreePRF { size: self.size, root: self.root.puncture(self.size, i) }
    }

    /// The leaves of the tree when it is read as a tree over `size` leaves.
    pub fn expand(&self, size: usize) -> (leaves: Vec<Option<[u8; KEY_SIZE]>>)
        ensures
            leaves@ == self.root.leaves(size as nat),
            leaves@.len() == size,
    {
        let mut leaves: Vec<Option<[u8; KEY_SIZE]>> = Vec::new();
        self.root.push_leaves(size, &mut leaves);
        proof {
            self.root.lemma_leaves_known(size as nat);
        }
        leaves
    }

    /// All `size` leaves below a key.
    pub fn expand_full(size: usize, key: [u8; KEY_SIZE]) -> (leaves: Vec<[u8; KEY_SIZE]>)
        ensures
            leaves@ == key_leaves(key, size as nat),
            leaves@.len() == size,
    {
        let mut leaves: Vec<[u8; KEY_SIZE]> = Vec::new();
        KeyTree::push_key_leaves(key, size, &mut leaves);
        proof {
            lemma_key_leaves_len(key, size as nat);
        }
        leaves
    }
}

} // verus!
