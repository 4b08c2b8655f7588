//! Logs as the watcher sees them, and the order in which it hands them out.
use vstd::prelude::*;
use vstd::relations::{sorted_by, total_ordering};

use crate::types::U256;

verus! {

/// What the watcher reads of a fetched log.
#[derive(Clone, Copy, Debug, PartialEq, Eq)]
pub struct Log {
    /// Block of the log, where the node gave one.
    pub block_number: Option<u64>,
    /// Index of the log in its block, where the node gave one.
    pub log_index: Option<U256>,
    /// Place where the owner of the log keeps it, by which it is found again.
    pub position: usize,
}

impl Log {
    /// Block that the log is ordered by: block 0 where the node gave none.
    pub open spec fn block_key(self) -> nat {
        match self.block_number {
            Some(block) => block as nat,
            None => 0,
        }
    }

    /// Index that logs of one block are ordered by: 0 where the node gave none.
    pub open spec fn index_key(self) -> nat {
        match self.log_index {
            Some(index) => index.value(),
            None => 0,
        }
    }

    /// `self` comes before `other`: in an earlier block, or earlier in the same block.
    pub open spec fn precedes(self, other: Log) -> bool {
        ||| self.block_key() < other.block_key()
        ||| self.block_key() == other.block_key() && self.index_key() < other.index_key()
    }

    /// Whether `self` comes before `other`.
    fn is_before(&self, other: &Log) -> (before: bool)
        ensures
            before == self.precedes(*other),
    {
        let block: u64 = match self.block_number {
            Some(block) => block,
            None => 0,
        };
        let other_block: u64 = match other.block_number {
            Some(block) => block,
            None => 0,
        };
        let zero = U256 { hi: 0, lo: 0 };
        let index = match self.log_index {
            Some(index) => index,
            None => zero,
        };
        let other_index = match other.log_index {
            Some(index) => index,
            None => zero,
        };
        block < other_block || (block == other_block && (index.hi < other_index.hi || (index.hi
            == other_index.hi && index.lo < other_index.lo)))
    }
}

/// The order of the places of `logs`: a place comes no later than another one if its log does, and of
/// two logs that neither precedes the other the earlier place comes first.
pub open spec fn place_order(logs: Seq<Log>) -> spec_fn(int, int) -> bool {
    |i: int, j: int|
        logs[i].precedes(logs[j]) || (!logs[j].precedes(logs[i]) && i <= j)
}

/// The places of a sequence of `len` items, in ascending order.
pub open spec fn places(len: nat) -> Seq<int> {
    Seq::new(len, |i: int| i)
}

/// `logs` in the order of their blocks and of their indices in the block. Logs that neither precedes
/// the other stay in the order in which they were given.
pub open spec fn in_order(logs: Seq<Log>) -> Seq<Log> {
    ordered_places_of(logs).map_values(|i: int| logs[i])
}

/// The places of `logs`, ordered as their logs are.
pub open spec fn ordered_places_of(logs: Seq<Log>) -> Seq<int> {
    places(logs.len()).sort_by(place_order(logs))
}

/// The same numbers, as integers.
pub open spec fn as_ints(v: Seq<usize>) -> Seq<int> {
    v.map_values(|i: usize| i as int)
}

proof fn lemma_place_order_total(logs: Seq<Log>)
    ensures
        total_ordering(place_order(logs)),
{
}

/// Merges two ordered lists of places of `logs`.
fn merge(logs: &Vec<Log>, left: &Vec<usize>, right: &Vec<usize>) -> (merged: Vec<usize>)
    requires
        forall|k: int| 0 <= k < left.len() ==> left[k] < logs.len(),
        forall|k: int| 0 <= k < right.len() ==> right[k] < logs.len(),
        sorted_by(as_ints(left@), place_order(logs@)),
        sorted_by(as_ints(right@), place_order(logs@)),
    ensures
        forall|k: int| 0 <= k < merged.len() ==> merged[k] < logs.len(),
        sorted_by(as_ints(merged@), place_order(logs@)),
        as_ints(merged@).to_multiset() == as_ints(left@).to_multiset().add(
            as_ints(right@).to_multiset(),
        ),
{
    let mut merged: Vec<usize> = Vec::new();
    let mut i: usize = 0;
    let mut j: usize = 0;
    let ghost leq = place_order(logs@);
    let ghost l = as_ints(left@);
    let ghost r = as_ints(right@);
    proof {
        lemma_place_order_total(logs@);
        assert(l.take(0) =~= Seq::<int>::empty());
        assert(r.take(0) =~= Seq::<int>::empty());
        assert(as_ints(merged@) =~= Seq::<int>::empty());
        broadcast use vstd::multiset::group_multiset_axioms;
        broadcast use vstd::seq_lib::group_to_multiset_ensures;
        assert(as_ints(merged@).to_multiset() =~= l.take(0).to_multiset().add(r.take(0).to_multiset()));
    }
    while i < left.len() || j < right.len()
        invariant
            i <= left.len(),
            j <= right.len(),
            l == as_ints(left@),
            r == as_ints(right@),
            leq == place_order(logs@),
            total_ordering(leq),
            forall|k: int| 0 <= k < left.len() ==> left[k] < logs.len(),
            forall|k: int| 0 <= k < right.len() ==> right[k] < logs.len(),
            forall|k: int| 0 <= k < merged.len() ==> merged[k] < logs.len(),
            sorted_by(l, leq),
            sorted_by(r, leq),
            sorted_by(as_ints(merged@), leq),
            forall|k: int, a: int|
                0 <= k < merged.len() && i <= a < left.len() ==> #[trigger] leq(
                    as_ints(merged@)[k],
                    l[a],
                ),
            forall|k: int, b: int|
                0 <= k < merged.len() && j <= b < right.len() ==> #[trigger] leq(
                    as_ints(merged@)[k],
                    r[b],
                ),
            as_ints(merged@).to_multiset() == l.take(i as int).to_multiset().add(
                r.take(j as int).to_multiset(),
            ),
        decreases left.len() - i + right.len() - j,
    {
        let ghost before = as_ints(merged@);
        let take_left: bool = if j == right.len() {
            true
        } else if i == left.len() {
            false
        } else {
            let a: usize = left[i];
            let b: usize = right[j];
            logs[a].is_before(&logs[b]) || (!logs[b].is_before(&logs[a]) && a <= b)
        };
        proof {
            broadcast use vstd::multiset::group_multiset_axioms;
            broadcast use vstd::seq_lib::group_to_multiset_ensures;
        }
        if take_left {
            merged.push(left[i]);
            proof {
                assert(as_ints(merged@) =~= before.push(l[i as int]));
                assert(l.take(i + 1) =~= l.take(i as int).push(l[i as int]));
                assert(as_ints(merged@).to_multiset() =~= l.take(i + 1).to_multiset().add(
                    r.take(j as int).to_multiset(),
                ));
                assert forall|b: int| j <= b < right.len() implies leq(l[i as int], r[b]) by {
                    if b > j {
                        assert(leq(r[j as int], r[b]));
                    }
                    assert(leq(l[i as int], r[j as int]));
                }
            }
            i = i + 1;
        } else {
            merged.push(right[j]);
            proof {
                assert(as_ints(merged@) =~= before.push(r[j as int]));
                assert(r.take(j + 1) =~= r.take(j as int).push(r[j as int]));
                assert(as_ints(merged@).to_multiset() =~= l.take(i as int).to_multiset().add(
                    r.take(j + 1).to_multiset(),
                ));
                assert forall|a: int| i <= a < left.len() implies leq(r[j as int], l[a]) by {
                    if a > i {
                        assert(leq(l[i as int], l[a]));
                    }
                    assert(leq(r[j as int], l[i as int]));
                }
            }
            j = j + 1;
        }
    }
    proof {
        assert(l.take(i as int) =~= l);
        assert(r.take(j as int) =~= r);
    }
    merged
}

/// The places `from..to` of `logs`, ordered.
fn ordered_places(logs: &Vec<Log>, from: usize, to: usize) -> (ordered: Vec<usize>)
    requires
        from <= to <= logs.len(),
    ensures
        forall|k: int| 0 <= k < ordered.len() ==> ordered[k] < logs.len(),
        sorted_by(as_ints(ordered@), place_order(logs@)),
        as_ints(ordered@).to_multiset() == places(to as nat).skip(from as int).to_multiset(),
    decreases to - from,
{
    if to - from <= 1 {
        let mut ordered: Vec<usize> = Vec::new();
        if from < to {
            ordered.push(from);
        }
        proof {
            assert(as_ints(ordered@) =~= places(to as nat).skip(from as int));
        }
        ordered
    } else {
        let middle: usize = from + (to - from) / 2;
        let left = ordered_places(logs, from, middle);
        let right = ordered_places(logs, middle, to);
        proof {
            let l = places(middle as nat).skip(from as int);
            let r = places(to as nat).skip(middle as int);
            assert(places(to as nat).skip(from as int) =~= l + r);
            vstd::seq_lib::lemma_multiset_commutative(l, r);
        }
        merge(logs, &left, &right)
    }
}

/// Puts `logs` in order: by block, in a block by index, and otherwise as they were given.
pub fn sort_logs(logs: Vec<Log>) -> (sorted: Vec<Log>)
    ensures
        sorted@ == in_order(logs@),
{
    let ordered = ordered_places(&logs, 0, logs.len());
    proof {
        let leq = place_order(logs@);
        let all = places(logs.len() as nat);
        lemma_place_order_total(logs@);
        all.lemma_sort_by_ensures(leq);
        assert(all.skip(0) =~= all);
        vstd::seq_lib::lemma_sorted_unique(as_ints(ordered@), all.sort_by(leq), leq);
        vstd::seq_lib::to_multiset_len(as_ints(ordered@));
        vstd::seq_lib::to_multiset_len(all);
    }
    let mut sorted: Vec<Log> = Vec::new();
    for k in 0..ordered.len()
        invariant
            ordered.len() == logs.len(),
            forall|k: int| 0 <= k < ordered.len() ==> ordered[k] < logs.len(),
            as_ints(ordered@) == places(logs.len() as nat).sort_by(place_order(logs@)),
            sorted@ =~= in_order(logs@).take(k as int),
    {
        assert(as_ints(ordered@)[k as int] == ordered[k as int]);
        sorted.push(logs[ordered[k]]);
    }
    assert(in_order(logs@).take(ordered.len() as int) =~= in_order(logs@));
    sorted
}

proof fn lemma_map_keeps_multiset<A, B>(p: Seq<A>, q: Seq<A>, f: spec_fn(A) -> B)
    requires
        p.to_multiset() == q.to_multiset(),
    ensures
        p.map_values(f).to_multiset() == q.map_values(f).to_multiset(),
    decreases p.len(),
{
    broadcast use vstd::multiset::group_multiset_axioms;
    broadcast use vstd::seq_lib::group_to_multiset_ensures;

    vstd::seq_lib::to_multiset_len(p);
    vstd::seq_lib::to_multiset_len(q);
    if p.len() == 0 {
        assert(p.map_values(f) =~= q.map_values(f));
    } else {
        let last = p.len() - 1;
        assert(q.to_multiset().contains(p[last]));
        let k = q.index_of(p[last]);
        assert(q.contains(p[last]));
        vstd::seq_lib::to_multiset_remove(p, last);
        vstd::seq_lib::to_multiset_remove(q, k);
        lemma_map_keeps_multiset(p.remove(last), q.remove(k), f);
        assert(p.map_values(f).remove(last) =~= p.remove(last).map_values(f));
        assert(q.map_values(f).remove(k) =~= q.remove(k).map_values(f));
        vstd::seq_lib::to_multiset_remove(p.map_values(f), last);
        vstd::seq_lib::to_multiset_remove(q.map_values(f), k);
        let b = f(p[last]);
        assert(p.map_values(f)[last] == b);
        assert(q.map_values(f)[k] == b);
        assert(p.map_values(f).to_multiset().contains(b));
        assert(q.map_values(f).to_multiset().contains(b));
        assert(p.map_values(f).to_multiset() =~= p.map_values(f).to_multiset().remove(b).insert(b));
        assert(q.map_values(f).to_multiset() =~= q.map_values(f).to_multiset().remove(b).insert(b));
    }
}

/// Ordering logs loses none, adds none, leaves no log behind one that it precedes, and keeps logs of
/// which neither precedes the other in the order in which they were given.
pub proof fn law_order_keeps_logs(logs: Seq<Log>)
    ensures
        in_order(logs).len() == logs.len(),
        in_order(logs).to_multiset() == logs.to_multiset(),
        forall|i: int, j: int|
            0 <= i < j < logs.len() ==> !(#[trigger] in_order(logs)[j].precedes(
                #[trigger] in_order(logs)[i],
            )),
        forall|i: int, j: int|
            0 <= i < j < logs.len() ==> in_order(logs)[i].precedes(in_order(logs)[j]) || (
            #[trigger] ordered_places_of(logs)[i]) < #[trigger] ordered_places_of(logs)[j],
{
    let leq = place_order(logs);
    let all = places(logs.len());
    let sorted = all.sort_by(leq);
    lemma_place_order_total(logs);
    all.lemma_sort_by_ensures(leq);
    vstd::seq_lib::to_multiset_len(sorted);
    vstd::seq_lib::to_multiset_len(all);
    lemma_map_keeps_multiset(all, sorted, |i: int| logs[i]);
    assert(all.map_values(|i: int| logs[i]) =~= logs);
    assert forall|i: int, j: int| 0 <= i < j < logs.len() implies !(#[trigger] in_order(
        logs,
    )[j].precedes(#[trigger] in_order(logs)[i])) by {
        assert(leq(sorted[i], sorted[j]));
    }
    assert(all.no_duplicates());
    all.lemma_multiset_has_no_duplicates();
    sorted.lemma_multiset_has_no_duplicates_conv();
    assert forall|i: int, j: int| 0 <= i < j < logs.len() implies in_order(logs)[i].precedes(
        in_order(logs)[j],
    ) || (#[trigger] ordered_places_of(logs)[i]) < #[trigger] ordered_places_of(logs)[j] by {
        assert(leq(sorted[i], sorted[j]));
        assert(sorted[i] != sorted[j]);
    }
}

/// Logs that come in order are handed out as they came: in particular, ordering twice changes no more
/// than ordering once.
pub proof fn law_ordered_logs_stay(logs: Seq<Log>)
    requires
        forall|i: int, j: int|
            0 <= i < j < logs.len() ==> !(#[trigger] logs[j].precedes(#[trigger] logs[i])),
    ensures
        in_order(logs) == logs,
{
    let leq = place_order(logs);
    let all = places(logs.len());
    lemma_place_order_total(logs);
    all.lemma_sort_by_ensures(leq);
    assert(sorted_by(all, leq));
    vstd::seq_lib::lemma_sorted_unique(all, all.sort_by(leq), leq);
    assert(in_order(logs) =~= logs);
}

/// Block of a log, 0 where the node gave none.
pub open spec fn block_of(log: Log) -> int {
    match log.block_number {
        Some(block) => block as int,
        None => 0,
    }
}

/// The log comes no later than the other: its block does not, and in one block its index does not. What the
/// node did not give counts as 0.
pub open spec fn no_later(a: Log, b: Log) -> bool {
    let (a_hi, a_lo) = match a.log_index {
        Some(index) => (index.hi, index.lo),
        None => (0u128, 0u128),
    };
    let (b_hi, b_lo) = match b.log_index {
        Some(index) => (index.hi, index.lo),
        None => (0u128, 0u128),
    };
    ||| block_of(a) < block_of(b)
    ||| block_of(a) == block_of(b) && (a_hi < b_hi || a_hi == b_hi && a_lo <= b_lo)
}

/// Ordered logs are the same logs, each in the place of one of those that were given. Each comes no later than
/// those behind it; and of two that come no later than one another, the one that was given first stands first.
pub proof fn law_sorted_logs_ascend(logs: Seq<Log>)
    ensures
        in_order(logs).len() == logs.len(),
        in_order(logs).to_multiset() == logs.to_multiset(),
        ordered_places_of(logs).len() == logs.len(),
        ordered_places_of(logs).no_duplicates(),
        forall|i: int|
            0 <= i < logs.len() ==> {
                &&& 0 <= (#[trigger] ordered_places_of(logs)[i]) < logs.len()
                &&& in_order(logs)[i] == logs[ordered_places_of(logs)[i]]
            },
        forall|i: int, j: int|
            0 <= i < j < logs.len() ==> no_later(
                #[trigger] in_order(logs)[i],
                #[trigger] in_order(logs)[j],
            ),
        forall|i: int, j: int|
            0 <= i < j < logs.len() && no_later(in_order(logs)[j], in_order(logs)[i]) ==> (
            #[trigger] ordered_places_of(logs)[i]) < (#[trigger] ordered_places_of(logs)[j]),
{
    law_order_keeps_logs(logs);
    let leq = place_order(logs);
    let all = places(logs.len());
    let sorted = all.sort_by(leq);
    lemma_place_order_total(logs);
    all.lemma_sort_by_ensures(leq);
    vstd::seq_lib::to_multiset_len(sorted);
    vstd::seq_lib::to_multiset_len(all);
    assert(all.no_duplicates());
    all.lemma_multiset_has_no_duplicates();
    sorted.lemma_multiset_has_no_duplicates_conv();
    broadcast use vstd::seq_lib::group_to_multiset_ensures;

    assert forall|i: int| 0 <= i < logs.len() implies 0 <= (#[trigger] ordered_places_of(logs)[i])
        < logs.len() by {
        assert(sorted.to_multiset().contains(sorted[i]));
        assert(all.contains(sorted[i]));
    }
    assert forall|i: int, j: int| 0 <= i < j < logs.len() implies no_later(
        #[trigger] in_order(logs)[i],
        #[trigger] in_order(logs)[j],
    ) by {
        assert(!in_order(logs)[j].precedes(in_order(logs)[i]));
    }
    assert forall|i: int, j: int|
        0 <= i < j < logs.len() && no_later(in_order(logs)[j], in_order(logs)[i]) implies (
    #[trigger] ordered_places_of(logs)[i]) < (#[trigger] ordered_places_of(logs)[j]) by {
        assert(!in_order(logs)[i].precedes(in_order(logs)[j]));
    }
}

} // verus!
