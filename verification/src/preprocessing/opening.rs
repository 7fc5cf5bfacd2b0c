//! Which repetitions are opened and which stay hidden.

use vstd::prelude::*;

use crate::crypto::KEY_SIZE;
use crate::util::increasing;

verus! {

/// For each leaf, whether it is known.
pub open spec fn known_of(leaves: Seq<Option<[u8; KEY_SIZE]>>) -> Seq<bool> {
    Seq::new(leaves.len(), |i: int| leaves[i] is Some)
}

/// The positions that are not known, in increasing order.
pub open spec fn hidden_indices(known: Seq<bool>) -> Seq<usize>
    decreases known.len(),
{
    if known.len() == 0 {
        Seq::empty()
    } else if known.last() {
        hidden_indices(known.drop_last())
    } else {
        hidden_indices(known.drop_last()).push((known.len() - 1) as usize)
    }
}

/// The values of the known leaves, in order.
pub open spec fn opened_keys(leaves: Seq<Option<[u8; KEY_SIZE]>>) -> Seq<[u8; KEY_SIZE]>
    decreases leaves.len(),
{
    if leaves.len() == 0 {
        Seq::empty()
    } else {
        match leaves.last() {
            Some(key) => opened_keys(leaves.drop_last()).push(key),
            None => opened_keys(leaves.drop_last()),
        }
    }
}

/// The number of hidden positions before a position.
pub open spec fn hidden_before(known: Seq<bool>, i: int) -> nat {
    hidden_indices(known.take(i)).len()
}

/// The values of all positions, when those of the known positions and those of
/// the hidden positions are given in order.
pub open spec fn interleaved<T>(known: Seq<bool>, opened: Seq<T>, hidden: Seq<T>) -> Seq<T> {
    Seq::new(
        known.len(),
        |i: int|
            if known[i] {
                opened[i - hidden_before(known, i)]
            } else {
                hidden[hidden_before(known, i) as int]
            },
    )
}

/// A position is in a list.
pub open spec fn lists(positions: Seq<usize>, i: int) -> bool {
    exists|j: int| 0 <= j < positions.len() && positions[j] == i
}

/// The leaves without those at some positions.
pub open spec fn punctured(keys: Seq<[u8; KEY_SIZE]>, hidden: Seq<usize>) -> Seq<
    Option<[u8; KEY_SIZE]>,
> {
    Seq::new(
        keys.len(),
        |i: int|
            if lists(hidden, i) {
                None
            } else {
                Some(keys[i])
            },
    )
}

/// The values at some positions.
pub open spec fn selected<T>(values: Seq<T>, indices: Seq<usize>) -> Seq<T> {
    Seq::new(indices.len(), |j: int| values[indices[j] as int])
}

/// Every position is either hidden or opened.
pub proof fn lemma_opened_len(leaves: Seq<Option<[u8; KEY_SIZE]>>)
    ensures
        opened_keys(leaves).len() + hidden_indices(known_of(leaves)).len() == leaves.len(),
    decreases leaves.len(),
{
    if leaves.len() > 0 {
        lemma_opened_len(leaves.drop_last());
        assert(known_of(leaves).drop_last() =~= known_of(leaves.drop_last()));
    }
}

/// A position before the end is counted among those that come before the end.
pub proof fn lemma_hidden_before(known: Seq<bool>, i: int)
    requires
        0 <= i < known.len() <= usize::MAX,
    ensures
        hidden_before(known, i) <= i,
        i - hidden_before(known, i) + hidden_indices(known).len() <= known.len(),
        hidden_before(known, i) <= hidden_indices(known).len(),
        known[i] ==> i - hidden_before(known, i) + hidden_indices(known).len() < known.len(),
        !known[i] ==> hidden_before(known, i) < hidden_indices(known).len() && hidden_indices(
            known,
        )[hidden_before(known, i) as int] == i,
    decreases known.len(),
{
    let shorter = known.drop_last();
    lemma_hidden_len(known.take(i));
    if i < shorter.len() {
        lemma_hidden_before(shorter, i);
        assert(shorter.take(i) =~= known.take(i));
    } else {
        assert(known.take(i) =~= shorter);
    }
}

/// No more positions are hidden than there are.
pub proof fn lemma_hidden_len(known: Seq<bool>)
    ensures
        hidden_indices(known).len() <= known.len(),
    decreases known.len(),
{
    if known.len() > 0 {
        lemma_hidden_len(known.drop_last());
    }
}

/// The value of a known leaf stands among the opened ones at the place that
/// the hidden positions before it leave.
pub proof fn lemma_opened_key(leaves: Seq<Option<[u8; KEY_SIZE]>>, i: int)
    requires
        0 <= i < leaves.len() <= usize::MAX,
        leaves[i] is Some,
    ensures
        0 <= i - hidden_before(known_of(leaves), i) < opened_keys(leaves).len(),
        leaves[i] == Some(opened_keys(leaves)[i - hidden_before(known_of(leaves), i)]),
    decreases leaves.len(),
{
    let shorter = leaves.drop_last();
    let known = known_of(leaves);
    lemma_hidden_before(known, i);
    lemma_opened_len(leaves);
    if i < shorter.len() {
        lemma_opened_key(shorter, i);
        assert(known_of(shorter).take(i) =~= known.take(i));
    } else {
        lemma_opened_len(shorter);
        assert(known_of(shorter) =~= known.take(i));
    }
}

/// Of a list of increasing positions, those below `m` are the hidden positions
/// below `m`, where just the positions of the list are hidden.
proof fn lemma_hidden_prefix(known: Seq<bool>, hidden: Seq<usize>, m: int) -> (count: int)
    requires
        0 <= m <= known.len() <= usize::MAX,
        increasing(hidden),
        forall|i: int|
            0 <= i < known.len() ==> #[trigger] known[i] == !lists(hidden, i),
    ensures
        0 <= count <= hidden.len(),
        forall|j: int| 0 <= j < count ==> #[trigger] hidden[j] < m,
        forall|j: int| count <= j < hidden.len() ==> m <= #[trigger] hidden[j],
        hidden_indices(known.take(m)) == hidden.take(count),
    decreases m,
{
    if m == 0 {
        0
    } else {
        let below = lemma_hidden_prefix(known, hidden, m - 1);
        assert(known.take(m).drop_last() =~= known.take(m - 1));
        if known[m - 1] {
            below
        } else {
            let j = choose|j: int| 0 <= j < hidden.len() && hidden[j] == m - 1;
            assert(below <= j);
            assert(m - 1 <= hidden[below]);
            assert(hidden.take(below + 1) =~= hidden.take(below).push(hidden[below]));
            below + 1
        }
    }
}

/// Where increasing positions are punctured, they are the hidden ones.
pub proof fn lemma_punctured_hidden(keys: Seq<[u8; KEY_SIZE]>, hidden: Seq<usize>)
    requires
        keys.len() <= usize::MAX,
        increasing(hidden),
        forall|j: int| 0 <= j < hidden.len() ==> #[trigger] hidden[j] < keys.len(),
    ensures
        hidden_indices(known_of(punctured(keys, hidden))) == hidden,
{
    let known = known_of(punctured(keys, hidden));
    let count = lemma_hidden_prefix(known, hidden, keys.len() as int);
    assert(known.take(keys.len() as int) =~= known);
    assert(count == hidden.len()) by {
        if count < hidden.len() {
            assert(keys.len() <= hidden[count]);
        }
    }
    assert(hidden.take(count) =~= hidden);
}

/// Puncturing one more position takes just this position out.
pub proof fn lemma_punctured_push(keys: Seq<[u8; KEY_SIZE]>, hidden: Seq<usize>, i: usize)
    requires
        i < keys.len(),
    ensures
        punctured(keys, hidden.push(i)) == punctured(keys, hidden).update(i as int, None),
{
    let more = hidden.push(i);
    assert(more[hidden.len() as int] == i);
    assert forall|k: int| 0 <= k < keys.len() implies #[trigger] lists(more, k) == (k == i || lists(
        hidden,
        k,
    )) by {
        if lists(hidden, k) {
            let j = choose|j: int| 0 <= j < hidden.len() && hidden[j] == k;
            assert(more[j] == k);
        }
    }
    assert(punctured(keys, more) =~= punctured(keys, hidden).update(i as int, None));
}

/// A list names, in increasing order, just the positions that are flagged with
/// a value.
pub open spec fn names_those(list: Seq<usize>, flags: Seq<bool>, value: bool) -> bool {
    &&& increasing(list)
    &&& forall|j: int| 0 <= j < list.len() ==> #[trigger] list[j] < flags.len()
    &&& forall|i: int| 0 <= i < flags.len() ==> #[trigger] lists(list, i) == (flags[i] == value)
}

/// The hidden positions name just the positions that are not known.
pub proof fn hidden_positions_are_those_not_known(known: Seq<bool>)
    requires
        known.len() <= usize::MAX,
    ensures
        names_those(hidden_indices(known), known, false),
    decreases known.len(),
{
    let all = hidden_indices(known);
    if known.len() > 0 {
        let front = known.drop_last();
        let fewer = hidden_indices(front);
        let last = (known.len() - 1) as usize;
        hidden_positions_are_those_not_known(front);
        assert forall|i: int| 0 <= i < known.len() implies #[trigger] lists(all, i) == !known[i] by {
            if i < last {
                assert(lists(fewer, i) == (front[i] == false));
                if lists(fewer, i) {
                    let j = choose|j: int| 0 <= j < fewer.len() && fewer[j] == i;
                    assert(all[j] == i);
                }
            } else if !known[i] {
                assert(all[fewer.len() as int] == i);
            }
        }
    }
}

/// Only one list names the positions that are flagged with a value.
pub proof fn positions_are_named_in_one_way(
    a: Seq<usize>,
    b: Seq<usize>,
    flags: Seq<bool>,
    value: bool,
)
    requires
        flags.len() <= usize::MAX,
        names_those(a, flags, value),
        names_those(b, flags, value),
    ensures
        a == b,
{
    let known = Seq::new(flags.len(), |i: int| flags[i] != value);
    lemma_named_are_hidden(known, a);
    lemma_named_are_hidden(known, b);
}

proof fn lemma_named_are_hidden(known: Seq<bool>, list: Seq<usize>)
    requires
        known.len() <= usize::MAX,
        names_those(list, known, false),
    ensures
        hidden_indices(known) == list,
{
    let count = lemma_hidden_prefix(known, list, known.len() as int);
    assert(known.take(known.len() as int) =~= known);
    assert(count == list.len()) by {
        if count < list.len() {
            assert(known.len() <= list[count]);
        }
    }
    assert(list.take(count) =~= list);
}

/// Of the positions of a list that names the known ones, as many lie below `m`
/// as are not hidden below `m`.
proof fn lemma_known_prefix(known: Seq<bool>, list: Seq<usize>, m: int) -> (count: int)
    requires
        0 <= m <= known.len() <= usize::MAX,
        names_those(list, known, true),
    ensures
        0 <= count <= list.len(),
        forall|j: int| 0 <= j < count ==> #[trigger] list[j] < m,
        forall|j: int| count <= j < list.len() ==> m <= #[trigger] list[j],
        count == m - hidden_before(known, m),
    decreases m,
{
    if m == 0 {
        0
    } else {
        let below = lemma_known_prefix(known, list, m - 1);
        assert(known.take(m).drop_last() =~= known.take(m - 1));
        if known[m - 1] {
            assert(lists(list, m - 1));
            let j = choose|j: int| 0 <= j < list.len() && list[j] == m - 1;
            assert(below <= j);
            assert(m - 1 <= list[below]);
            below + 1
        } else {
            assert(!lists(list, m - 1));
            below
        }
    }
}

/// Value number `j` of the opened ones goes to opened position number `j`, and
/// value number `j` of the hidden ones to hidden position number `j`.
pub proof fn values_go_to_their_positions<T>(
    known: Seq<bool>,
    opened: Seq<T>,
    hidden: Seq<T>,
    opened_at: Seq<usize>,
    hidden_at: Seq<usize>,
    j: int,
)
    requires
        known.len() <= usize::MAX,
        names_those(opened_at, known, true),
        names_those(hidden_at, known, false),
    ensures
        interleaved(known, opened, hidden).len() == known.len(),
        opened_at.len() + hidden_at.len() == known.len(),
        0 <= j < opened_at.len() ==> interleaved(known, opened, hidden)[opened_at[j] as int]
            == opened[j],
        0 <= j < hidden_at.len() ==> interleaved(known, opened, hidden)[hidden_at[j] as int]
            == hidden[j],
{
    let n = known.len() as int;
    lemma_named_are_hidden(known, hidden_at);
    let count = lemma_known_prefix(known, opened_at, n);
    assert(known.take(n) =~= known);
    assert(count == opened_at.len()) by {
        if count < opened_at.len() {
            assert(n <= opened_at[count]);
        }
    }
    if 0 <= j < opened_at.len() {
        let i = opened_at[j] as int;
        assert(lists(opened_at, i));
        let below = lemma_known_prefix(known, opened_at, i);
        assert(below == j) by {
            if below < j {
                assert(opened_at[below] < opened_at[j]);
            }
        }
    }
    if 0 <= j < hidden_at.len() {
        let i = hidden_at[j] as int;
        assert(lists(hidden_at, i));
        let below = lemma_hidden_prefix(known, hidden_at, i);
        assert(below == j) by {
            if below < j {
                assert(hidden_at[below] < hidden_at[j]);
            }
        }
    }
}

/// Opened value number `j` is that of opened leaf number `j`.
pub proof fn opened_key_is_that_of_its_leaf(
    leaves: Seq<Option<[u8; KEY_SIZE]>>,
    opened_at: Seq<usize>,
    j: int,
)
    requires
        leaves.len() <= usize::MAX,
        names_those(opened_at, known_of(leaves), true),
        0 <= j < opened_at.len(),
    ensures
        opened_keys(leaves).len() == opened_at.len(),
        leaves[opened_at[j] as int] == Some(opened_keys(leaves)[j]),
{
    let known = known_of(leaves);
    let keys = opened_keys(leaves);
    let hidden_at = hidden_indices(known);
    let i = opened_at[j] as int;
    hidden_positions_are_those_not_known(known);
    values_go_to_their_positions(known, keys, keys, opened_at, hidden_at, j);
    lemma_opened_len(leaves);
    assert(lists(opened_at, i));
    let below = lemma_known_prefix(known, opened_at, i);
    assert(below == j) by {
        if below < j {
            assert(opened_at[below] < opened_at[j]);
        }
    }
    lemma_opened_key(leaves, i);
}

/// The opened values are those of the leaves that have one, in order.
pub proof fn opened_keys_are_those_known(leaves: Seq<Option<[u8; KEY_SIZE]>>)
    ensures
        opened_keys(leaves) == leaves.filter(
            |leaf: Option<[u8; KEY_SIZE]>| leaf is Some,
        ).map_values(|leaf: Option<[u8; KEY_SIZE]>| leaf->0),
    decreases leaves.len(),
{
    reveal(Seq::filter);
    let with_value = |leaf: Option<[u8; KEY_SIZE]>| leaf is Some;
    let value = |leaf: Option<[u8; KEY_SIZE]>| leaf->0;
    if leaves.len() > 0 {
        let front = leaves.drop_last();
        opened_keys_are_those_known(front);
        assert(leaves.filter(with_value).map_values(value) =~= if leaves.last() is Some {
            front.filter(with_value).map_values(value).push(leaves.last()->0)
        } else {
            front.filter(with_value).map_values(value)
        });
    } else {
        assert(leaves.filter(with_value).map_values(value) =~= Seq::empty());
    }
}

/// As many positions are hidden as leaves have no value.
pub proof fn hidden_positions_are_counted(leaves: Seq<Option<[u8; KEY_SIZE]>>)
    ensures
        hidden_indices(known_of(leaves)).len() == leaves.filter(
            |leaf: Option<[u8; KEY_SIZE]>| leaf is None,
        ).len(),
    decreases leaves.len(),
{
    reveal(Seq::filter);
    if leaves.len() > 0 {
        hidden_positions_are_counted(leaves.drop_last());
        assert(known_of(leaves).drop_last() =~= known_of(leaves.drop_last()));
    }
}

} // verus!
