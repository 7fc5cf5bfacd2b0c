//! Reading programs in slices, and sampling from a generator.

use vstd::prelude::*;
use vstd::std_specs::iter::IteratorSpec;

use crate::crypto::PRG;

verus! {

/// The smaller of a bound and a length.
pub open spec fn at_most(n: nat, len: nat) -> int {
    if n < len {
        n as int
    } else {
        len as int
    }
}

/// Takes up to `n` items from the front of an iterator; fewer than `n` only
/// where the iterator ends.
pub fn read_n<T, I: Iterator<Item = T>>(iter: &mut I, n: usize) -> (items: Vec<T>)
    ensures
        items@.len() <= n,
        (*final(iter)).obeys_prophetic_iter_laws() == (*old(iter)).obeys_prophetic_iter_laws(),
        (*old(iter)).obeys_prophetic_iter_laws() ==> {
            let len = at_most(n as nat, (*old(iter)).remaining().len());
            &&& items@ + (*final(iter)).remaining() == (*old(iter)).remaining()
            &&& items@.len() < n ==> (*final(iter)).remaining().len() == 0
            &&& items@ == (*old(iter)).remaining().take(len)
            &&& (*final(iter)).remaining() == (*old(iter)).remaining().skip(len)
            &&& (*final(iter)).decrease() is Some == (*old(iter)).decrease() is Some
            &&& (*old(iter)).decrease() is Some && 0 < n && items@.len() == n
                ==> (*final(iter)).decrease()->0 < (*old(iter)).decrease()->0
        },
{
    let mut items: Vec<T> = Vec::new();
    let ghost obeys = (*iter).obeys_prophetic_iter_laws();
    let ghost ends = (*iter).decrease() is Some;
    while items.len() < n
        invariant_except_break
            obeys && ends ==> (*iter).decrease()->0 <= (*old(iter)).decrease()->0,
            obeys && ends && items.len() > 0
                ==> (*iter).decrease()->0 < (*old(iter)).decrease()->0,
        invariant
            items.len() <= n,
            obeys == (*old(iter)).obeys_prophetic_iter_laws(),
            ends == ((*old(iter)).decrease() is Some),
            (*iter).obeys_prophetic_iter_laws() == obeys,
            obeys ==> (*old(iter)).remaining() == items@ + (*iter).remaining(),
            obeys ==> (*iter).decrease() is Some == ends,
        ensures
            obeys ==> items.len() == n || (*iter).remaining().len() == 0,
            obeys && ends && 0 < n && items.len() == n
                ==> (*iter).decrease()->0 < (*old(iter)).decrease()->0,
        decreases n - items.len(),
    {
        match iter.next() {
            Some(item) => {
                items.push(item);
            },
            None => {
                break;
            },
        }
    }
    items
}

/// The subset of `low..high` of size `left` that a generator picks. The
/// numbers are visited in increasing order, and each is kept with the odds of
/// what is left to pick among what is left to visit.
pub open spec fn subset_of(prg: PRG, low: nat, high: nat, left: nat) -> Seq<usize>
    decreases high - low,
{
    if low >= high {
        Seq::empty()
    } else if prg.number_below((high - low) as nat) < left {
        seq![low as usize] + subset_of(prg.rest(), low + 1, high, (left - 1) as nat)
    } else {
        subset_of(prg.rest(), low + 1, high, left)
    }
}

/// The numbers stand in strictly increasing order.
pub open spec fn increasing(s: Seq<usize>) -> bool {
    forall|i: int, j: int| 0 <= i < j < s.len() ==> s[i] < s[j]
}

/// The picked subset has the size that was asked for, lies in the range and is
/// listed in strictly increasing order.
pub proof fn lemma_subset_of(prg: PRG, low: nat, high: nat, left: nat)
    requires
        low <= high <= usize::MAX,
        left <= high - low,
    ensures
        subset_of(prg, low, high, left).len() == left,
        increasing(subset_of(prg, low, high, left)),
        forall|i: int|
            0 <= i < left ==> low <= #[trigger] subset_of(prg, low, high, left)[i] < high,
    decreases high - low,
{
    if low < high {
        let tail = if prg.number_below((high - low) as nat) < left {
            lemma_subset_of(prg.rest(), low + 1, high, (left - 1) as nat);
            subset_of(prg.rest(), low + 1, high, (left - 1) as nat)
        } else {
            assert(prg.number_below((high - low) as nat) < high - low) by (nonlinear_arith)
                requires
                    low < high,
                    prg.number_below((high - low) as nat) == (
                    vstd::bytes::spec_u128_from_le_bytes(prg.block()@.subrange(0, 16)) as nat) % ((
                    high - low) as nat),
            ;
            lemma_subset_of(prg.rest(), low + 1, high, left);
            subset_of(prg.rest(), low + 1, high, left)
        };
        assert(forall|i: int| 0 <= i < tail.len() ==> low < #[trigger] tail[i]);
    }
}

proof fn lemma_subset_rule(prg: PRG, low: nat, high: nat, left: nat, i: nat, c: nat)
    requires
        low <= i < high <= usize::MAX,
        left <= high - low,
        c <= left,
        c > 0 ==> subset_of(prg, low, high, left)[c - 1] < i,
        c < left ==> i <= subset_of(prg, low, high, left)[c as int],
    ensures
        (c < left && subset_of(prg, low, high, left)[c as int] == i) == (prg.skip(
            (i - low) as nat,
        ).number_below((high - i) as nat) < left - c),
    decreases high - low,
{
    let all = subset_of(prg, low, high, left);
    let picked = prg.number_below((high - low) as nat) < left;
    let rest_left = if picked {
        (left - 1) as nat
    } else {
        left
    };
    let tail = subset_of(prg.rest(), low + 1, high, rest_left);
    prg.number_below_is_a_rest((high - low) as nat);
    lemma_subset_of(prg, low, high, left);
    lemma_subset_of(prg.rest(), low + 1, high, rest_left);
    prg.skips_add_up(1, (i - low - 1) as nat);
    if picked {
        assert(all =~= seq![low as usize] + tail);
    }
    if i == low {
        assert(c == 0);
        if !picked && left > 0 {
            assert(low < tail[0]);
        }
    } else if picked {
        assert(all[0] == low);
        assert(c >= 1);
        lemma_subset_rule(prg.rest(), low + 1, high, rest_left, i, (c - 1) as nat);
    } else {
        lemma_subset_rule(prg.rest(), low + 1, high, rest_left, i, c);
    }
}

/// Which numbers are picked: with `c` numbers picked below `i`, the number `i`
/// is picked just if draw number `i`, taken below what is left to visit, falls
/// below what is left to pick. So every draw counts, and the picked numbers are
/// determined by the draws and the draws alone.
pub proof fn number_is_picked_by_its_draw(prg: PRG, size: nat, samples: nat, i: nat, c: nat)
    requires
        i < size <= usize::MAX,
        c <= samples <= size,
        c > 0 ==> subset_of(prg, 0, size, samples)[c - 1] < i,
        c < samples ==> i <= subset_of(prg, 0, size, samples)[c as int],
    ensures
        subset_of(prg, 0, size, samples).len() == samples,
        subset_of(prg, 0, size, samples).contains(i as usize) == (prg.skip(i).number_below(
            (size - i) as nat,
        ) < samples - c),
{
    let s = subset_of(prg, 0, size, samples);
    lemma_subset_of(prg, 0, size, samples);
    lemma_subset_rule(prg, 0, size, samples, i, c);
    if s.contains(i as usize) {
        let j = choose|j: int| 0 <= j < s.len() && s[j] == i as usize;
        if j < c {
            assert(s[j] <= s[c - 1]);
        } else if c < j {
            assert(s[c as int] < s[j]);
        }
    }
}

/// Picks `samples` of the numbers below `size`, in increasing order.
pub fn random_subset(prg: &mut PRG, size: usize, samples: usize) -> (subset: Vec<usize>)
    requires
        samples <= size,
    ensures
        subset@ == subset_of(*old(prg), 0, size as nat, samples as nat),
        subset@.len() == samples,
        increasing(subset@),
        forall|i: int| 0 <= i < subset@.len() ==> #[trigger] subset@[i] < size,
        *final(prg) == old(prg).skip(size as nat),
{
    let mut subset: Vec<usize> = Vec::new();
    let mut left: usize = samples;
    let mut i: usize = 0;
    while i < size
        invariant
            i <= size,
            *prg == old(prg).skip(i as nat),
            subset@ + subset_of(*prg, i as nat, size as nat, left as nat) == subset_of(
                *old(prg),
                0,
                size as nat,
                samples as nat,
            ),
        decreases size - i,
    {
        let ghost rest = subset_of(prg.rest(), (i + 1) as nat, size as nat, (left - 1) as nat);
        let n: usize = prg.next_below(size - i);
        if n < left {
            proof {
                assert(subset@ + (seq![i] + rest) =~= subset@.push(i) + rest);
            }
            subset.push(i);
            left = left - 1;
        }
        i = i + 1;
    }
    proof {
        lemma_subset_of(*old(prg), 0, size as nat, samples as nat);
    }
    subset
}

/// The list after its entries from `i` on were shuffled by a generator: each
/// position in turn is swapped with one that is drawn from the rest.
pub open spec fn shuffled(prg: PRG, list: Seq<usize>, i: nat) -> Seq<usize>
    decreases list.len() - i,
{
    if i >= list.len() {
        list
    } else {
        let j = i + prg.number_below((list.len() - i) as nat);
        shuffled(prg.rest(), swapped(list, i as int, j as int), i + 1)
    }
}

/// The list with two of its entries exchanged.
pub open spec fn swapped(list: Seq<usize>, i: int, j: int) -> Seq<usize> {
    list.update(i, list[j]).update(j, list[i])
}

/// The numbers below `n` in order.
pub open spec fn identity(n: nat) -> Seq<usize> {
    Seq::new(n, |i: int| i as usize)
}

/// A list of the numbers below `n` in some order, each of them once.
pub open spec fn is_permutation(list: Seq<usize>, n: nat) -> bool {
    &&& list.len() == n
    &&& list.no_duplicates()
    &&& forall|i: int| 0 <= i < n ==> #[trigger] list[i] < n
}

proof fn lemma_shuffled(prg: PRG, list: Seq<usize>, i: nat)
    requires
        is_permutation(list, list.len()),
    ensures
        is_permutation(shuffled(prg, list, i), list.len()),
        forall|k: int| 0 <= k < i && k < list.len() ==> #[trigger] shuffled(prg, list, i)[k] == list[k],
        i < list.len() ==> shuffled(prg, list, i)[i as int] == list[i as int + prg.number_below(
            (list.len() - i) as nat,
        )],
    decreases list.len() - i,
{
    if i < list.len() {
        prg.number_below_is_a_rest((list.len() - i) as nat);
        let j = i + prg.number_below((list.len() - i) as nat);
        let next = swapped(list, i as int, j as int);
        assert(is_permutation(next, list.len()));
        lemma_shuffled(prg.rest(), next, i + 1);
    }
}

/// A shuffle keeps every entry of the list, each of them once.
pub proof fn shuffle_is_a_permutation(prg: PRG, n: nat)
    requires
        n <= usize::MAX,
    ensures
        shuffled(prg, identity(n), 0).len() == n,
        shuffled(prg, identity(n), 0).no_duplicates(),
        forall|i: int| 0 <= i < n ==> #[trigger] shuffled(prg, identity(n), 0)[i] < n,
        forall|b: usize| b < n ==> #[trigger] shuffled(prg, identity(n), 0).contains(b),
{
    let order = shuffled(prg, identity(n), 0);
    lemma_shuffled(prg, identity(n), 0);
    assert forall|b: usize| b < n implies #[trigger] order.contains(b) by {
        lemma_no_gap(order, n, b);
    }
}

/// A list of `n` different numbers below `n` leaves no number out.
proof fn lemma_no_gap(list: Seq<usize>, n: nat, b: usize)
    requires
        is_permutation(list, n),
        b < n,
    ensures
        list.contains(b),
{
    if !list.contains(b) {
        let all = Set::<int>::new(|k: int| 0 <= k < n);
        let found = list.map_values(|x: usize| x as int).to_set();
        let mapped = list.map_values(|x: usize| x as int);
        assert(mapped.no_duplicates());
        mapped.unique_seq_to_set();
        vstd::set_lib::lemma_int_range(0, n as int);
        assert(all =~= vstd::set_lib::set_int_range(0, n as int));
        assert forall|k: int| #[trigger] found.contains(k) implies all.remove(b as int).contains(
            k,
        ) by {
            let j = choose|j: int| 0 <= j < mapped.len() && mapped[j] == k;
            assert(list[j] as int == k);
        }
        vstd::set_lib::lemma_len_subset(found, all.remove(b as int));
    }
}

proof fn lemma_order_draws(p: PRG, q: PRG, list: Seq<usize>, i: nat, k: nat)
    requires
        is_permutation(list, list.len()),
        i <= k < list.len(),
        shuffled(p, list, i) == shuffled(q, list, i),
    ensures
        p.skip((k - i) as nat).number_below((list.len() - k) as nat) == q.skip(
            (k - i) as nat,
        ).number_below((list.len() - k) as nat),
    decreases k - i,
{
    lemma_shuffled(p, list, i);
    lemma_shuffled(q, list, i);
    let m = (list.len() - i) as nat;
    p.number_below_is_a_rest(m);
    q.number_below_is_a_rest(m);
    p.skips_add_up(1, (k - i - 1) as nat);
    q.skips_add_up(1, (k - i - 1) as nat);
    assert(p.number_below(m) == q.number_below(m));
    if i < k {
        let next = swapped(list, i as int, (i + p.number_below(m)) as int);
        assert(is_permutation(next, list.len()));
        lemma_order_draws(p.rest(), q.rest(), next, i + 1, k);
    }
}

/// An order tells the draws that it was made with: two generators that put the
/// numbers below `n` in the same order agree in every draw, number `k` taken
/// below `n - k`. So each order comes from just one choice of draws.
pub proof fn order_tells_the_draws(p: PRG, q: PRG, n: nat, k: nat)
    requires
        k < n <= usize::MAX,
        shuffled(p, identity(n), 0) == shuffled(q, identity(n), 0),
    ensures
        p.skip(k).number_below((n - k) as nat) == q.skip(k).number_below((n - k) as nat),
{
    lemma_order_draws(p, q, identity(n), 0, k);
}

proof fn lemma_swap_keeps_values<T>(list: Seq<usize>, i: int, j: int, f: spec_fn(usize) -> T)
    requires
        0 <= i <= j < list.len(),
    ensures
        swapped(list, i, j).map_values(f).to_multiset() == list.map_values(f).to_multiset(),
{
    broadcast use vstd::seq_lib::group_to_multiset_ensures;
    broadcast use vstd::multiset::group_multiset_axioms;

    let s = list.map_values(f);
    let t = swapped(list, i, j).map_values(f);
    if i == j {
        assert(s =~= t);
    } else {
        let rest = s.remove(j).remove(i);
        assert(t.remove(j).remove(i) =~= rest);
        assert(s.to_multiset() =~= rest.to_multiset().insert(s[i]).insert(s[j]));
        assert(t.to_multiset() =~= rest.to_multiset().insert(t[i]).insert(t[j]));
        assert(s.to_multiset() =~= t.to_multiset());
    }
}

proof fn lemma_shuffle_keeps_values<T>(
    prg: PRG,
    list: Seq<usize>,
    i: nat,
    f: spec_fn(usize) -> T,
)
    ensures
        shuffled(prg, list, i).map_values(f).to_multiset() == list.map_values(f).to_multiset(),
    decreases list.len() - i,
{
    if i < list.len() {
        prg.number_below_is_a_rest((list.len() - i) as nat);
        let j = i + prg.number_below((list.len() - i) as nat);
        lemma_swap_keeps_values(list, i as int, j as int, f);
        lemma_shuffle_keeps_values(prg.rest(), swapped(list, i as int, j as int), i + 1, f);
    }
}

/// Values that are listed in the order of a shuffle are the same values, each as
/// often as before.
pub proof fn shuffle_keeps_values<T>(prg: PRG, n: nat, f: spec_fn(usize) -> T)
    ensures
        shuffled(prg, identity(n), 0).map_values(f).to_multiset() == identity(n).map_values(
            f,
        ).to_multiset(),
{
    lemma_shuffle_keeps_values(prg, identity(n), 0, f);
}

/// The number that comes first is the first draw.
pub proof fn first_of_order_is_first_draw(prg: PRG, n: nat)
    requires
        0 < n <= usize::MAX,
    ensures
        shuffled(prg, identity(n), 0)[0] == prg.number_below(n),
{
    lemma_shuffled(prg, identity(n), 0);
    prg.number_below_is_a_rest(n);
}

/// Puts the numbers below `n` in a random order.
pub fn random_permutation(prg: &mut PRG, n: usize) -> (list: Vec<usize>)
    ensures
        list@ == shuffled(*old(prg), identity(n as nat), 0),
        is_permutation(list@, n as nat),
        *final(prg) == old(prg).skip(n as nat),
{
    let mut list: Vec<usize> = Vec::new();
    let mut i: usize = 0;
    while i < n
        invariant
            i <= n,
            list@ == identity(i as nat),
        decreases n - i,
    {
        list.push(i);
        i = i + 1;
    }
    i = 0;
    while i < n
        invariant
            i <= n,
            *prg == old(prg).skip(i as nat),
            is_permutation(list@, n as nat),
            shuffled(*prg, list@, i as nat) == shuffled(*old(prg), identity(n as nat), 0),
        decreases n - i,
    {
        let j: usize = i + prg.next_below(n - i);
        let first: usize = list[i];
        let second: usize = list[j];
        let ghost before = list@;
        list.set(i, second);
        list.set(j, first);
        proof {
            assert(list@ =~= swapped(before, i as int, j as int));
        }
        i = i + 1;
    }
    list
}

} // verus!
