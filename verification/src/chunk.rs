//! Which blocks are fetched next, for whom, and how far that takes each processor.
use vstd::prelude::*;

use crate::logs::{as_ints, in_order, law_order_keeps_logs, places, Log};
use crate::types::H256;

verus! {

/// Most blocks that one request for logs may span.
pub const MAX_LOG_RANGE_BLOCKS: u64 = 1_000;

/// Progress of one processor while its events are fetched.
#[derive(Clone, Copy, Debug, PartialEq, Eq)]
pub struct PState {
    /// Index of the processor.
    pub idx: usize,
    /// Next block that the processor has yet to see.
    pub cursor: u64,
    /// First topic of the processor's events.
    pub topic1: Option<H256>,
    /// Second topic of the processor's events.
    pub topic2: Option<H256>,
}

/// Processors whose events have the same topics, so that one request serves them all.
#[derive(Debug)]
pub struct Group {
    pub topic1: Option<H256>,
    pub topic2: Option<H256>,
    /// Places of the members among the states, in ascending order.
    pub members: Vec<usize>,
}

/// A [`Group`], with its members as integers.
#[verifier::ext_equal]
pub struct GroupView {
    pub topic1: Option<H256>,
    pub topic2: Option<H256>,
    pub members: Seq<int>,
}

impl View for Group {
    type V = GroupView;

    open spec fn view(&self) -> GroupView {
        GroupView { topic1: self.topic1, topic2: self.topic2, members: as_ints(self.members@) }
    }
}

/// The views of `groups`.
pub open spec fn group_views(groups: Seq<Group>) -> Seq<GroupView> {
    groups.map_values(|group: Group| group@)
}

/// A range of blocks, and the groups that its logs are fetched for.
#[derive(Debug)]
pub struct Chunk {
    pub from: u64,
    pub to: u64,
    pub groups: Vec<Group>,
}

/// A [`Chunk`], with its groups as a sequence.
#[verifier::ext_equal]
pub struct ChunkView {
    pub from: u64,
    pub to: u64,
    pub groups: Seq<GroupView>,
}

impl View for Chunk {
    type V = ChunkView;

    open spec fn view(&self) -> ChunkView {
        ChunkView { from: self.from, to: self.to, groups: group_views(self.groups@) }
    }
}

/// The state at place `i` has yet to see a block up to `to`.
pub open spec fn is_due(states: Seq<PState>, to: u64, i: int) -> bool {
    states[i].cursor <= to
}

/// Some state has yet to see a block up to `to`.
pub open spec fn any_due(states: Seq<PState>, to: u64) -> bool {
    exists|i: int| 0 <= i < states.len() && #[trigger] is_due(states, to, i)
}

/// The two states look for the same events.
pub open spec fn same_topics(a: PState, b: PState) -> bool {
    a.topic1 == b.topic1 && a.topic2 == b.topic2
}

/// The state at place `i` is due up to `to`, and none before it that is due has the same topics.
pub open spec fn leads(states: Seq<PState>, to: u64, i: int) -> bool {
    &&& is_due(states, to, i)
    &&& forall|j: int|
        0 <= j < i && #[trigger] is_due(states, to, j) ==> !same_topics(states[j], states[i])
}

/// Places of the states that are due up to `to` and have the topics of the state at place `i`.
pub open spec fn members_with(states: Seq<PState>, to: u64, i: int) -> Seq<int> {
    places(states.len()).filter(
        |j: int| is_due(states, to, j) && same_topics(states[j], states[i]),
    )
}

/// The group that the state at place `i` leads.
pub open spec fn group_led_by(states: Seq<PState>, to: u64, i: int) -> GroupView {
    GroupView {
        topic1: states[i].topic1,
        topic2: states[i].topic2,
        members: members_with(states, to, i),
    }
}

/// The states that are due up to `to`, grouped by their topics. The groups stand in the order of
/// their first members.
pub open spec fn groups_due(states: Seq<PState>, to: u64) -> Seq<GroupView> {
    places(states.len()).filter(|i: int| leads(states, to, i)).map_values(
        |i: int| group_led_by(states, to, i),
    )
}

/// Each number is greater than those before it.
pub open spec fn is_ascending(numbers: Seq<int>) -> bool {
    forall|a: int, b: int| 0 <= a < b < numbers.len() ==> (#[trigger] numbers[a]) < (#[trigger] numbers[b])
}

/// The earliest cursor up to `to_block`, if there is any.
pub open spec fn earliest_due(states: Seq<PState>, to_block: u64) -> Option<u64>
    decreases states.len(),
{
    if states.len() == 0 {
        None
    } else {
        let last = states.last().cursor;
        match earliest_due(states.drop_last(), to_block) {
            Some(cursor) => Some(if last < cursor { last } else { cursor }),
            None => if last <= to_block { Some(last) } else { None },
        }
    }
}

/// Last block of a chunk that starts at `from`.
pub open spec fn chunk_end(from: u64, to_block: u64) -> u64 {
    if from + (MAX_LOG_RANGE_BLOCKS - 1) <= to_block {
        (from + (MAX_LOG_RANGE_BLOCKS - 1)) as u64
    } else {
        to_block
    }
}

/// The next chunk: it starts at the earliest cursor, spans no more blocks than one request may, goes
/// no further than `to_block`, and serves as many groups as there are requests left. There is none
/// where every state is past `to_block`.
pub open spec fn next_chunk(states: Seq<PState>, to_block: u64, budget: nat) -> Option<ChunkView> {
    match earliest_due(states, to_block) {
        Some(from) => {
            let to = chunk_end(from, to_block);
            let groups = groups_due(states, to);
            Some(
                ChunkView {
                    from,
                    to,
                    groups: if groups.len() <= budget { groups } else { groups.take(budget as int) },
                },
            )
        },
        None => None,
    }
}

/// Block from which a processor goes on, after it was handed the ordered `logs` of the blocks
/// `from..=to` and has processed the first `processed` of them.
pub open spec fn block_after(processed: nat, logs: Seq<Log>, from: u64, to: u64) -> u64 {
    if processed == logs.len() {
        if to < u64::MAX { (to + 1) as u64 } else { to }
    } else if processed == 0 {
        from
    } else {
        logs[processed - 1].block_number->0
    }
}

/// The last log that was processed names its block, where [`block_after`] asks for it, and no more
/// logs were processed than there are.
pub open spec fn can_resume(processed: nat, logs: Seq<Log>) -> bool {
    &&& processed <= logs.len()
    &&& 0 < processed < logs.len() ==> logs[processed - 1].block_number is Some
}

/// Cursor of a processor that stood at `cursor` and goes on from `next_block`: it always moves on by
/// at least one block.
pub open spec fn moved_on(cursor: u64, next_block: u64) -> u64 {
    if next_block > cursor {
        next_block
    } else if cursor < u64::MAX {
        (cursor + 1) as u64
    } else {
        cursor
    }
}

proof fn lemma_places_take(len: nat, n: nat)
    requires
        n < len,
    ensures
        places(len).take(n as int + 1) == places(len).take(n as int).push(n as int),
        places(len).take(len as int) == places(len),
        places(len).take(0) == Seq::<int>::empty(),
{
    assert(places(len).take(n as int + 1) =~= places(len).take(n as int).push(n as int));
    assert(places(len).take(len as int) =~= places(len));
    assert(places(len).take(0) =~= Seq::<int>::empty());
}

/// Whether the two topics are the same.
fn topic_eq(a: &Option<H256>, b: &Option<H256>) -> (same: bool)
    ensures
        same == (*a == *b),
{
    match (a, b) {
        (Some(x), Some(y)) => *x == *y,
        (None, None) => true,
        _ => false,
    }
}

/// The earliest cursor up to `to_block`, if there is any.
pub fn earliest_cursor(states: &Vec<PState>, to_block: u64) -> (earliest: Option<u64>)
    ensures
        earliest == earliest_due(states@, to_block),
{
    let mut earliest: Option<u64> = None;
    for i in 0..states.len()
        invariant
            earliest == earliest_due(states@.take(i as int), to_block),
            earliest matches Some(cursor) ==> cursor <= to_block,
    {
        assert(states@.take(i + 1).drop_last() =~= states@.take(i as int));
        let cursor: u64 = states[i].cursor;
        if cursor <= to_block {
            earliest = match earliest {
                Some(other) => Some(if cursor < other { cursor } else { other }),
                None => Some(cursor),
            };
        }
    }
    assert(states@.take(states.len() as int) =~= states@);
    earliest
}

/// Whether some processor has yet to see a block up to `to`.
pub fn is_behind(states: &Vec<PState>, to: u64) -> (behind: bool)
    ensures
        behind == any_due(states@, to),
{
    for i in 0..states.len()
        invariant
            forall|j: int| 0 <= j < i ==> !is_due(states@, to, j),
    {
        if states[i].cursor <= to {
            assert(is_due(states@, to, i as int));
            return true;
        }
    }
    false
}

/// Whether the state at place `i` is due up to `to` with topics that no due state before it has.
fn is_leader(states: &Vec<PState>, to: u64, i: usize) -> (leader: bool)
    requires
        i < states.len(),
    ensures
        leader == leads(states@, to, i as int),
{
    if states[i].cursor > to {
        return false;
    }
    for j in 0..i
        invariant
            i < states.len(),
            forall|k: int|
                0 <= k < j && #[trigger] is_due(states@, to, k) ==> !same_topics(
                    states[k],
                    states[i as int],
                ),
    {
        if states[j].cursor <= to && topic_eq(&states[j].topic1, &states[i].topic1) && topic_eq(
            &states[j].topic2,
            &states[i].topic2,
        ) {
            assert(is_due(states@, to, j as int));
            return false;
        }
    }
    true
}

/// Collects the group that the state at place `i` leads.
fn collect_group(states: &Vec<PState>, to: u64, i: usize) -> (group: Group)
    requires
        i < states.len(),
    ensures
        group@ == group_led_by(states@, to, i as int),
{
    let mut members: Vec<usize> = Vec::new();
    let ghost chosen = |j: int|
        is_due(states@, to, j) && same_topics(states[j], states[i as int]);
    let ghost all = places(states.len() as nat);
    proof {
        lemma_places_take(states.len() as nat, 0);
        reveal(Seq::filter);
        assert(as_ints(members@) =~= all.take(0).filter(chosen));
    }
    for j in 0..states.len()
        invariant
            i < states.len(),
            all == places(states.len() as nat),
            chosen == (|j: int|
                is_due(states@, to, j) && same_topics(states[j], states[i as int])),
            as_ints(members@) == all.take(j as int).filter(chosen),
    {
        let ghost before = as_ints(members@);
        proof {
            lemma_places_take(states.len() as nat, j as nat);
            all.take(j as int).lemma_filter_push(j as int, chosen);
        }
        if states[j].cursor <= to && topic_eq(&states[j].topic1, &states[i].topic1) && topic_eq(
            &states[j].topic2,
            &states[i].topic2,
        ) {
            members.push(j);
            assert(as_ints(members@) =~= before.push(j as int));
        }
    }
    assert(all.take(states.len() as int) =~= all);
    Group { topic1: states[i].topic1, topic2: states[i].topic2, members }
}

/// Groups the states that are due up to `to` by their topics.
pub fn group_by_topics(states: &Vec<PState>, to: u64) -> (groups: Vec<Group>)
    ensures
        group_views(groups@) == groups_due(states@, to),
{
    let mut groups: Vec<Group> = Vec::new();
    let ghost leader = |i: int| leads(states@, to, i);
    let ghost led = |i: int| group_led_by(states@, to, i);
    let ghost all = places(states.len() as nat);
    proof {
        reveal(Seq::filter);
        assert(all.take(0) =~= Seq::<int>::empty());
        assert(group_views(groups@) =~= all.take(0).filter(leader).map_values(led));
    }
    for i in 0..states.len()
        invariant
            all == places(states.len() as nat),
            leader == (|i: int| leads(states@, to, i)),
            led == (|i: int| group_led_by(states@, to, i)),
            group_views(groups@) == all.take(i as int).filter(leader).map_values(led),
    {
        let ghost before = group_views(groups@);
        proof {
            lemma_places_take(states.len() as nat, i as nat);
            all.take(i as int).lemma_filter_push(i as int, leader);
            all.take(i as int).filter(leader).lemma_push_map_commute(led, i as int);
        }
        if is_leader(states, to, i) {
            let group = collect_group(states, to, i);
            groups.push(group);
            assert(group_views(groups@) =~= before.push(group@));
        }
    }
    assert(all.take(states.len() as int) =~= all);
    groups
}

/// Plans the next chunk: see [`next_chunk`].
pub fn plan_chunk(states: &Vec<PState>, to_block: u64, budget: usize) -> (chunk: Option<Chunk>)
    ensures
        match chunk {
            Some(chunk) => next_chunk(states@, to_block, budget as nat) == Some(chunk@),
            None => next_chunk(states@, to_block, budget as nat) is None,
        },
{
    let from: u64 = match earliest_cursor(states, to_block) {
        Some(from) => from,
        None => {
            return None;
        },
    };
    let furthest: u64 = from.saturating_add(MAX_LOG_RANGE_BLOCKS - 1);
    let to: u64 = if furthest < to_block { furthest } else { to_block };
    let mut groups = group_by_topics(states, to);
    let ghost all = groups@;
    if groups.len() > budget {
        groups.truncate(budget);
        assert(group_views(groups@) =~= group_views(all).take(budget as int));
    }
    Some(Chunk { from, to, groups })
}

/// Block from which a processor goes on after it has processed the first `processed` of `logs`: see
/// [`block_after`].
pub fn next_block_to_process(processed: usize, logs: &Vec<Log>, from: u64, to: u64) -> (next: u64)
    requires
        can_resume(processed as nat, logs@),
    ensures
        next == block_after(processed as nat, logs@, from, to),
{
    if processed == logs.len() {
        to.saturating_add(1)
    } else if processed == 0 {
        from
    } else {
        match logs[processed - 1].block_number {
            Some(block) => block,
            None => from,
        }
    }
}

/// Cursor of a processor that stood at `cursor` and goes on from `next_block`: see [`moved_on`].
pub fn advance_cursor(cursor: u64, next_block: u64) -> (moved: u64)
    ensures
        moved == moved_on(cursor, next_block),
{
    if next_block <= cursor {
        cursor.saturating_add(1)
    } else {
        next_block
    }
}

/// The chunk starts where the processor that is furthest behind has yet to begin: nobody's next block
/// is left out of it, as long as it is not past `to_block`.
pub proof fn law_earliest_is_least(states: Seq<PState>, to_block: u64)
    ensures
        match earliest_due(states, to_block) {
            Some(from) => {
                &&& from <= to_block
                &&& exists|i: int| 0 <= i < states.len() && (#[trigger] states[i]).cursor == from
                &&& forall|i: int|
                    0 <= i < states.len() ==> from <= (#[trigger] states[i]).cursor
            },
            None => !any_due(states, to_block),
        },
    decreases states.len(),
{
    if states.len() > 0 {
        let init = states.drop_last();
        law_earliest_is_least(init, to_block);
        let last = states.last().cursor;
        assert forall|i: int| 0 <= i < init.len() implies #[trigger] states[i] == init[i] by {}
        match earliest_due(init, to_block) {
            Some(cursor) => {
                let i = choose|i: int|
                    0 <= i < init.len() && (#[trigger] init[i]).cursor == cursor;
                assert(states[i].cursor == cursor);
                assert(states[states.len() - 1].cursor == last);
            },
            None => {
                assert forall|i: int| 0 <= i < init.len() implies states[i].cursor > to_block by {
                    assert(!is_due(init, to_block, i));
                }
                assert(states[states.len() - 1].cursor == last);
                if last > to_block {
                    assert forall|i: int| 0 <= i < states.len() implies !(#[trigger] is_due(
                        states,
                        to_block,
                        i,
                    )) by {}
                }
            },
        }
    }
}

proof fn lemma_filtered_places(len: nat, pred: spec_fn(int) -> bool)
    ensures
        forall|a: int|
            0 <= a < places(len).filter(pred).len() ==> {
                &&& 0 <= #[trigger] places(len).filter(pred)[a] < len
                &&& pred(places(len).filter(pred)[a])
            },
        forall|a: int, b: int|
            0 <= a < b < places(len).filter(pred).len() ==> #[trigger] places(len).filter(pred)[a]
                < #[trigger] places(len).filter(pred)[b],
        forall|i: int| 0 <= i < len && #[trigger] pred(i) ==> places(len).filter(pred).contains(i),
    decreases len,
{
    reveal(Seq::filter);
    if len > 0 {
        let init = (len - 1) as nat;
        lemma_filtered_places(init, pred);
        assert(places(len) =~= places(init).push(init as int));
        places(init).lemma_filter_push(init as int, pred);
        let before = places(init).filter(pred);
        let after = places(len).filter(pred);
        assert forall|i: int| 0 <= i < len && #[trigger] pred(i) implies after.contains(i) by {
            if i < init {
                assert(before.contains(i));
                let k = before.index_of(i);
                assert(after[k] == i);
            } else {
                assert(after[after.len() - 1] == i);
            }
        }
    }
}

/// Place of the state that leads the group of the due state at place `i`.
proof fn lemma_leader_of(states: Seq<PState>, to: u64, i: int) -> (leader: int)
    requires
        0 <= i < states.len(),
        is_due(states, to, i),
    ensures
        0 <= leader <= i,
        leads(states, to, leader),
        same_topics(states[i], states[leader]),
    decreases i,
{
    if leads(states, to, i) {
        i
    } else {
        let j = choose|j: int|
            0 <= j < i && #[trigger] is_due(states, to, j) && same_topics(states[j], states[i]);
        lemma_leader_of(states, to, j)
    }
}

/// Every group holds due states with its topics, each once and in ascending order; every due state is in a
/// group; and no two groups have the same topics, so that the logs of each pair of topics are fetched once for
/// all.
pub proof fn law_groups_partition(states: Seq<PState>, to: u64)
    ensures
        forall|a: int, m: int|
            0 <= a < groups_due(states, to).len() && 0 <= m < groups_due(
                states,
                to,
            )[a].members.len() ==> {
                let place = #[trigger] groups_due(states, to)[a].members[m];
                &&& 0 <= place < states.len()
                &&& is_due(states, to, place)
                &&& states[place].topic1 == groups_due(states, to)[a].topic1
                &&& states[place].topic2 == groups_due(states, to)[a].topic2
            },
        forall|a: int|
            0 <= a < groups_due(states, to).len() ==> {
                &&& (#[trigger] groups_due(states, to)[a]).members.no_duplicates()
                &&& groups_due(states, to)[a].members.len() > 0
                &&& is_ascending(groups_due(states, to)[a].members)
            },
        forall|i: int|
            0 <= i < states.len() && #[trigger] is_due(states, to, i) ==> exists|a: int|
                0 <= a < groups_due(states, to).len() && (#[trigger] groups_due(
                    states,
                    to,
                )[a]).members.contains(i),
        forall|a: int, b: int|
            0 <= a < b < groups_due(states, to).len() ==> (#[trigger] groups_due(states, to)[a]).topic1
                != (#[trigger] groups_due(states, to)[b]).topic1 || groups_due(states, to)[a].topic2
                != groups_due(states, to)[b].topic2,
{
    let leader = |i: int| leads(states, to, i);
    let leaders = places(states.len()).filter(leader);
    let groups = groups_due(states, to);
    lemma_filtered_places(states.len(), leader);
    assert forall|a: int| 0 <= a < groups.len() implies {
        &&& leads(states, to, leaders[a])
        &&& #[trigger] groups[a] == group_led_by(states, to, leaders[a])
        &&& groups[a].members.no_duplicates()
        &&& groups[a].members.len() > 0
        &&& is_ascending(groups[a].members)
        &&& forall|m: int|
            0 <= m < groups[a].members.len() ==> {
                let place = #[trigger] groups[a].members[m];
                &&& 0 <= place < states.len()
                &&& is_due(states, to, place)
                &&& same_topics(states[place], states[leaders[a]])
            }
    } by {
        assert(leader(leaders[a]));
        let chosen = |j: int|
            is_due(states, to, j) && same_topics(states[j], states[leaders[a]]);
        lemma_filtered_places(states.len(), chosen);
        assert(chosen(leaders[a]));
        let members = places(states.len()).filter(chosen);
        assert(members.contains(leaders[a]));
        assert forall|m: int| 0 <= m < members.len() implies chosen(#[trigger] members[m]) by {}
    }
    assert forall|i: int| 0 <= i < states.len() && #[trigger] is_due(states, to, i) implies exists|
        a: int,
    |
        0 <= a < groups.len() && (#[trigger] groups[a]).members.contains(i) by {
        let k = lemma_leader_of(states, to, i);
        assert(leader(k));
        let a = leaders.index_of(k);
        let chosen = |j: int| is_due(states, to, j) && same_topics(states[j], states[k]);
        lemma_filtered_places(states.len(), chosen);
        assert(chosen(i));
        assert(groups[a].members.contains(i));
    }
    assert forall|a: int, b: int| 0 <= a < b < groups.len() implies (#[trigger] groups[a]).topic1
        != (#[trigger] groups[b]).topic1 || groups[a].topic2 != groups[b].topic2 by {
        assert(leaders[a] < leaders[b]);
        assert(leads(states, to, leaders[b]));
        assert(is_due(states, to, leaders[a]));
    }
}

/// A chunk starts at or before its end, goes no further than `to_block`, spans no more blocks than one
/// request may, and costs at least one request and at most as many as are left.
pub proof fn law_chunk_is_bounded(states: Seq<PState>, to_block: u64, budget: nat)
    requires
        budget > 0,
    ensures
        next_chunk(states, to_block, budget) matches Some(chunk) ==> {
            &&& chunk.from <= chunk.to <= to_block
            &&& chunk.to - chunk.from < MAX_LOG_RANGE_BLOCKS
            &&& 0 < chunk.groups.len() <= budget
            &&& chunk.groups.is_prefix_of(groups_due(states, chunk.to))
        },
        next_chunk(states, to_block, budget) is Some <==> any_due(states, to_block),
{
    law_earliest_is_least(states, to_block);
    if let Some(chunk) = next_chunk(states, to_block, budget) {
        let i = choose|i: int|
            0 <= i < states.len() && (#[trigger] states[i]).cursor == chunk.from;
        assert(is_due(states, chunk.to, i));
        law_groups_partition(states, chunk.to);
        assert(is_due(states, to_block, i));
    }
}

/// A chunk leaves no gap: it starts no later than the next block of each of its members and ends no
/// earlier, and a member that processes all of its logs goes on right after the chunk. So every block that
/// such a member moves past was part of the request. (After the last block that can be numbered there is
/// nothing to go on to.)
pub proof fn law_chunk_leaves_no_gap(
    states: Seq<PState>,
    to_block: u64,
    budget: nat,
    group: int,
    member: int,
    logs: Seq<Log>,
)
    requires
        next_chunk(states, to_block, budget) is Some,
        0 <= group < next_chunk(states, to_block, budget)->0.groups.len(),
        0 <= member < next_chunk(states, to_block, budget)->0.groups[group].members.len(),
        next_chunk(states, to_block, budget)->0.to < u64::MAX,
    ensures
        ({
            let chunk = next_chunk(states, to_block, budget)->0;
            let cursor = states[chunk.groups[group].members[member]].cursor;
            let next_block = block_after(logs.len(), logs, chunk.from, chunk.to);
            &&& chunk.from <= cursor <= chunk.to
            &&& next_block == chunk.to + 1
            &&& moved_on(cursor, next_block) == chunk.to + 1
        }),
{
    let chunk = next_chunk(states, to_block, budget)->0;
    law_earliest_is_least(states, to_block);
    law_groups_partition(states, chunk.to);
    let all = groups_due(states, chunk.to);
    assert(chunk.groups[group] == all[group]);
    let place = all[group].members[member];
    assert(is_due(states, chunk.to, place));
    assert(states[place].cursor >= chunk.from);
}

/// A processor that stops in the middle of its logs goes on no later than the first log that it has
/// not processed: none is left behind the block that is stored for it. This speaks of one turn. A processor
/// that cannot be taken past its cursor is moved on by a block all the same, so that what a later turn of
/// the same pass stores may lie past logs that this turn has left.
pub proof fn law_unprocessed_logs_lie_ahead(processed: nat, fetched: Seq<Log>, from: u64, to: u64)
    requires
        from <= to,
        can_resume(processed, in_order(fetched)),
        forall|i: int| 0 <= i < fetched.len() ==> from <= (#[trigger] fetched[i]).block_key() <= to,
    ensures
        forall|i: int|
            processed <= i < fetched.len() ==> block_after(processed, in_order(fetched), from, to)
                <= (#[trigger] in_order(fetched)[i]).block_key(),
        from <= block_after(processed, in_order(fetched), from, to) <= to + 1,
{
    let logs = in_order(fetched);
    law_order_keeps_logs(fetched);
    broadcast use vstd::seq_lib::group_to_multiset_ensures;

    assert forall|i: int| 0 <= i < fetched.len() implies from <= (#[trigger] logs[i]).block_key()
        <= to by {
        assert(logs.contains(logs[i]));
        assert(logs.to_multiset().contains(logs[i]));
        assert(fetched.contains(logs[i]));
    }
    if 0 < processed < logs.len() {
        assert(logs[processed - 1].block_key() == logs[processed - 1].block_number->0);
        assert forall|i: int| processed <= i < fetched.len() implies logs[processed - 1].block_key()
            <= (#[trigger] logs[i]).block_key() by {
            assert(!logs[i].precedes(logs[processed - 1]));
        }
    }
}

/// A processor never stands still: each turn takes it at least one block further, and at least to the
/// block that is stored for it. (At the last block that can be numbered there is nowhere to go.)
pub proof fn law_cursor_moves_on(cursor: u64, next_block: u64)
    requires
        cursor < u64::MAX,
    ensures
        cursor < moved_on(cursor, next_block),
        next_block <= moved_on(cursor, next_block),
        moved_on(cursor, next_block) <= cursor + 1 || moved_on(cursor, next_block) == next_block,
{
}

} // verus!
