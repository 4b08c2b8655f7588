//! What holds of every pass of the watcher, whatever comes of its actions.
use vstd::prelude::*;

use crate::chunk::{any_due, law_chunk_is_bounded, PState, MAX_LOG_RANGE_BLOCKS};
use crate::iteration::{
    first_processor, law_first_processor_is_first, ActionView, Event, Failure, IterationView, Phase, ProcessorInfo,
    GET_EVENTS_INTERNAL_RETRY_LIMIT, MAX_RPCS_PER_ITER_PER_SOURCE,
};
use crate::logs::{in_order, Log};
use crate::types::EventsSource;

verus! {

/// The state after a sequence of events.
#[verifier::opaque]
pub open spec fn after(start: IterationView, events: Seq<Event>) -> IterationView
    decreases events.len(),
{
    if events.len() == 0 {
        start
    } else {
        after(start, events.drop_last()).next(events.last())
    }
}

/// Each of the events is waited for when it comes.
pub open spec fn is_run(start: IterationView, events: Seq<Event>) -> bool
    decreases events.len(),
{
    events.len() == 0 || {
        &&& is_run(start, events.drop_last())
        &&& after(start, events.drop_last()).awaits(events.last())
    }
}

/// A pass is in a sound state at all times.
pub proof fn law_runs_stay_wf(start: IterationView, events: Seq<Event>)
    requires
        start.wf(),
        is_run(start, events),
    ensures
        after(start, events).wf(),
    decreases events.len(),
{
    reveal(after);
    if events.len() > 0 {
        law_runs_stay_wf(start, events.drop_last());
        after(start, events.drop_last()).law_next_keeps_wf(events.last());
    }
}

/// Requests for logs of `source` that the events answer.
pub open spec fn log_requests(start: IterationView, events: Seq<Event>, source: EventsSource) -> nat
    decreases events.len(),
{
    if events.len() == 0 {
        0
    } else {
        let before = after(start, events.drop_last());
        let earlier = log_requests(start, events.drop_last(), source);
        if before.action() is FetchLogs && before.source == source {
            earlier + 1
        } else {
            earlier
        }
    }
}

/// Requests for logs of its source that a state has made so far.
spec fn requests_made(s: IterationView) -> int {
    let in_chunk = match s.phase {
        Phase::Logs => true,
        Phase::Process { .. } => true,
        Phase::Store { .. } => true,
        Phase::Stall { .. } => true,
        _ => false,
    };
    MAX_RPCS_PER_ITER_PER_SOURCE - s.budget + if in_chunk {
        s.fetched.len() as int
    } else {
        0
    }
}

proof fn lemma_requests_made(start: IterationView, events: Seq<Event>)
    requires
        start.wf(),
        start.phase is ChainId || start.phase is Finished,
        is_run(start, events),
    ensures
        ({
            let s = after(start, events);
            &&& s.wf()
            &&& s.source is L1 ==> log_requests(start, events, EventsSource::SL) == 0
            &&& log_requests(start, events, EventsSource::L1) <= MAX_RPCS_PER_ITER_PER_SOURCE
            &&& log_requests(start, events, EventsSource::SL) <= MAX_RPCS_PER_ITER_PER_SOURCE
            &&& (!(s.phase is Finished) && !(s.phase is Failed)) ==> log_requests(
                start,
                events,
                s.source,
            ) == requests_made(s)
        }),
    decreases events.len(),
{
    reveal(after);
    if events.len() > 0 {
        let init = events.drop_last();
        lemma_requests_made(start, init);
        let before = after(start, init);
        before.law_next_keeps_wf(events.last());
    }
}

/// A pass makes no more requests for logs of a source than its budget, over both buckets together.
pub proof fn law_requests_stay_within_budget(
    processors: Seq<ProcessorInfo>,
    event_expiration_blocks: u64,
    events: Seq<Event>,
    source: EventsSource,
)
    requires
        processors.len() <= usize::MAX,
        is_run(IterationView::begin(processors, event_expiration_blocks), events),
    ensures
        log_requests(IterationView::begin(processors, event_expiration_blocks), events, source)
            <= MAX_RPCS_PER_ITER_PER_SOURCE,
{
    let start = IterationView::begin(processors, event_expiration_blocks);
    IterationView::law_begin_is_wf(processors, event_expiration_blocks);
    lemma_requests_made(start, events);
    match source {
        EventsSource::L1 => {},
        EventsSource::SL => {},
    }
}

/// The `k`-th event is the node's answer that `tip` is the last confirmed block of `source`, or the last
/// finalized one.
pub open spec fn reports_tip(
    start: IterationView,
    events: Seq<Event>,
    k: int,
    source: EventsSource,
    finalized: bool,
    tip: u64,
) -> bool {
    &&& 0 <= k < events.len()
    &&& if finalized {
        &&& events[k] == Event::FinalizedBlock(tip)
        &&& after(start, events.take(k)).action() == ActionView::FetchFinalizedBlock { source }
    } else {
        &&& events[k] == Event::ConfirmedBlock(tip)
        &&& after(start, events.take(k)).action() == ActionView::FetchConfirmedBlock { source }
    }
}

/// The `j`-th event is the node's answer to a request for logs, and in order the logs are `logs`.
pub open spec fn answers_with(
    start: IterationView,
    events: Seq<Event>,
    j: int,
    request: ActionView,
    logs: Seq<Log>,
) -> bool {
    &&& 0 <= j < events.len()
    &&& events[j] is Logs
    &&& logs == in_order(events[j]->Logs_0@)
    &&& after(start, events.take(j)).action() == request
}

/// The request for the logs of a group of the chunk.
pub open spec fn request_of(s: IterationView, group: int) -> ActionView {
    ActionView::FetchLogs {
        source: s.source,
        from: s.chunk.from,
        to: s.chunk.to,
        topic1: s.chunk.groups[group].topic1,
        topic2: s.chunk.groups[group].topic2,
        retry_limit: GET_EVENTS_INTERNAL_RETRY_LIMIT,
    }
}

spec fn tips_are_reported(start: IterationView, events: Seq<Event>, s: IterationView) -> bool {
    &&& s.confirmed matches Some(tip) ==> exists|k: int|
        reports_tip(start, events, k, s.source, false, tip)
    &&& s.finalized matches Some(tip) ==> exists|k: int|
        reports_tip(start, events, k, s.source, true, tip)
}

spec fn in_chunk(s: IterationView) -> bool {
    s.phase is Logs || s.phase is Process || s.phase is Store || s.phase is Stall
}

spec fn logs_are_answers(start: IterationView, events: Seq<Event>, s: IterationView) -> bool {
    in_chunk(s) ==> forall|g: int|
        0 <= g < s.fetched.len() ==> exists|j: int|
            answers_with(start, events, j, #[trigger] request_of(s, g), s.fetched[g])
}

/// What an event leaves as it was, in the step from `s` to `t`.
spec fn is_framed(s: IterationView, event: Event, t: IterationView) -> bool {
    &&& t.processors == s.processors
    &&& event is ConfirmedBlock || t.confirmed is None || (t.source == s.source && t.confirmed
        == s.confirmed)
    &&& event is FinalizedBlock || t.finalized is None || (t.source == s.source && t.finalized
        == s.finalized)
    &&& event matches Event::ConfirmedBlock(tip) ==> {
        &&& s.action() == ActionView::FetchConfirmedBlock { source: s.source }
        &&& t.confirmed is None || (t.source == s.source && t.confirmed == Some(tip))
    }
    &&& event matches Event::FinalizedBlock(tip) ==> {
        &&& s.action() == ActionView::FetchFinalizedBlock { source: s.source }
        &&& t.finalized is None || (t.source == s.source && t.finalized == Some(tip))
    }
    &&& event matches Event::Logs(logs) ==> {
        &&& t.fetched == s.fetched.push(in_order(logs@))
        &&& t.chunk == s.chunk
        &&& t.source == s.source
        &&& in_chunk(s)
        &&& s.action() == request_of(s, s.fetched.len() as int)
    }
    &&& !(event is Logs) && in_chunk(t) ==> t.fetched.len() == 0 || {
        &&& in_chunk(s)
        &&& t.fetched == s.fetched
        &&& t.chunk == s.chunk
        &&& t.source == s.source
    }
}

proof fn lemma_next_frame(s: IterationView, event: Event)
    requires
        s.wf(),
        s.awaits(event),
    ensures
        is_framed(s, event, s.next(event)),
{
}

proof fn lemma_events_persist(start: IterationView, events: Seq<Event>)
    requires
        events.len() > 0,
    ensures
        forall|k: int, source: EventsSource, finalized: bool, tip: u64|
            #[trigger] reports_tip(start, events.drop_last(), k, source, finalized, tip) ==> reports_tip(
                start,
                events,
                k,
                source,
                finalized,
                tip,
            ),
        forall|j: int, request: ActionView, logs: Seq<Log>|
            #[trigger] answers_with(start, events.drop_last(), j, request, logs) ==> answers_with(
                start,
                events,
                j,
                request,
                logs,
            ),
        events.take(events.len() - 1) == events.drop_last(),
{
    let init = events.drop_last();
    assert(events.take(events.len() - 1) =~= init);
    assert forall|k: int| 0 <= k < init.len() implies #[trigger] events.take(k) == init.take(k) by {
        assert(events.take(k) =~= init.take(k));
    }
}

proof fn lemma_provenance_step(
    start: IterationView,
    events: Seq<Event>,
    before: IterationView,
    s: IterationView,
)
    requires
        events.len() > 0,
        before == after(start, events.drop_last()),
        is_framed(before, events.last(), s),
        tips_are_reported(start, events.drop_last(), before),
        logs_are_answers(start, events.drop_last(), before),
    ensures
        tips_are_reported(start, events, s),
        logs_are_answers(start, events, s),
{
    let init = events.drop_last();
    let last = events.len() - 1;
    lemma_events_persist(start, events);
    if let Event::ConfirmedBlock(block) = events.last() {
        assert(reports_tip(start, events, last, before.source, false, block));
    }
    if let Event::FinalizedBlock(block) = events.last() {
        assert(reports_tip(start, events, last, before.source, true, block));
    }
    if let Some(tip) = s.confirmed {
        if !(events.last() is ConfirmedBlock) {
            let k = choose|k: int| reports_tip(start, init, k, before.source, false, tip);
            assert(reports_tip(start, events, k, s.source, false, tip));
        }
    }
    if let Some(tip) = s.finalized {
        if !(events.last() is FinalizedBlock) {
            let k = choose|k: int| reports_tip(start, init, k, before.source, true, tip);
            assert(reports_tip(start, events, k, s.source, true, tip));
        }
    }
    if in_chunk(s) {
        assert forall|g: int| 0 <= g < s.fetched.len() implies exists|j: int|
            answers_with(start, events, j, #[trigger] request_of(s, g), s.fetched[g]) by {
            if g < before.fetched.len() {
                assert(request_of(s, g) == request_of(before, g));
                let j = choose|j: int|
                    answers_with(start, init, j, request_of(before, g), before.fetched[g]);
                assert(answers_with(start, events, j, request_of(s, g), s.fetched[g]));
            } else {
                assert(answers_with(start, events, last, request_of(s, g), s.fetched[g]));
            }
        }
    }
}

proof fn lemma_provenance(start: IterationView, events: Seq<Event>)
    requires
        start.wf(),
        start.confirmed is None,
        start.finalized is None,
        start.phase is ChainId || start.phase is Finished,
        is_run(start, events),
    ensures
        after(start, events).wf(),
        after(start, events).processors == start.processors,
        tips_are_reported(start, events, after(start, events)),
        logs_are_answers(start, events, after(start, events)),
    decreases events.len(),
{
    reveal(after);
    if events.len() > 0 {
        lemma_provenance(start, events.drop_last());
        let before = after(start, events.drop_last());
        before.law_next_keeps_wf(events.last());
        lemma_next_frame(before, events.last());
        lemma_provenance_step(start, events, before, after(start, events));
    }
}

/// Logs are asked for in ranges of bounded length, and never beyond the last block that the node has
/// reported as confirmed, or as finalized for the processors that insist on it.
pub proof fn law_only_settled_blocks_are_fetched(
    processors: Seq<ProcessorInfo>,
    event_expiration_blocks: u64,
    events: Seq<Event>,
)
    requires
        processors.len() <= usize::MAX,
        is_run(IterationView::begin(processors, event_expiration_blocks), events),
    ensures
        ({
            let start = IterationView::begin(processors, event_expiration_blocks);
            let s = after(start, events);
            s.action() matches ActionView::FetchLogs { source, from, to, .. } ==> {
                &&& from <= to
                &&& to - from < MAX_LOG_RANGE_BLOCKS
                &&& exists|k: int, tip: u64|
                    to <= tip && #[trigger] reports_tip(
                        start,
                        events,
                        k,
                        source,
                        s.finalized_only,
                        tip,
                    )
            }
        }),
{
    let start = IterationView::begin(processors, event_expiration_blocks);
    IterationView::law_begin_is_wf(processors, event_expiration_blocks);
    lemma_provenance(start, events);
    let s = after(start, events);
    if s.action() is FetchLogs {
        let tip = s.to_block();
        assert(exists|k: int| reports_tip(start, events, k, s.source, s.finalized_only, tip));
    }
}

/// What a processor is handed are the logs, in order, with which the node of its source answered the
/// request for its topics; and no block of that request lies beyond the last block that the node has
/// reported as confirmed, or as finalized if the processor insists on it. So no event is accepted before
/// it has the confirmations that its processor asks for.
pub proof fn law_only_settled_logs_are_processed(
    processors: Seq<ProcessorInfo>,
    event_expiration_blocks: u64,
    events: Seq<Event>,
)
    requires
        processors.len() <= usize::MAX,
        is_run(IterationView::begin(processors, event_expiration_blocks), events),
    ensures
        ({
            let start = IterationView::begin(processors, event_expiration_blocks);
            let s = after(start, events);
            s.action() matches ActionView::ProcessEvents { processor, logs } ==> {
                let info = processors[processor as int];
                let group = s.phase->Process_group as int;
                let member = s.phase->Process_member as int;
                let state = s.states[s.place(group, member)];
                &&& processor < processors.len()
                &&& state.idx == processor
                &&& exists|j: int| #[trigger]
                    answers_with(
                        start,
                        events,
                        j,
                        ActionView::FetchLogs {
                            source: info.source,
                            from: s.chunk.from,
                            to: s.chunk.to,
                            topic1: state.topic1,
                            topic2: state.topic2,
                            retry_limit: GET_EVENTS_INTERNAL_RETRY_LIMIT,
                        },
                        logs,
                    )
                &&& exists|k: int, tip: u64|
                    s.chunk.to <= tip && #[trigger] reports_tip(
                        start,
                        events,
                        k,
                        info.source,
                        info.only_finalized,
                        tip,
                    )
            }
        }),
{
    let start = IterationView::begin(processors, event_expiration_blocks);
    IterationView::law_begin_is_wf(processors, event_expiration_blocks);
    lemma_provenance(start, events);
    let s = after(start, events);
    if let ActionView::ProcessEvents { processor, logs } = s.action() {
        let group = s.phase->Process_group as int;
        let member = s.phase->Process_member as int;
        let place = s.place(group, member);
        assert(s.group_wf(group));
        assert(s.in_bucket(s.states[place].idx as int));
        let j = choose|j: int|
            answers_with(start, events, j, request_of(s, group), s.fetched[group]);
        assert(answers_with(start, events, j, request_of(s, group), s.fetched[group]));
        let tip = s.to_block();
        assert(exists|k: int| reports_tip(start, events, k, s.source, s.finalized_only, tip));
    }
}

/// Steps that the requests of one budget unit take at most, with `n` processors: the request itself, the
/// pause after the chunk, and three for each processor (process, store, and pause where it stalls).
pub open spec fn steps_per_request(n: nat) -> nat {
    3 * n + 2
}

/// Steps that a source takes at most, with `n` processors: its three facts, its requests, and for either
/// bucket the cursors and a pause.
pub open spec fn steps_per_source(n: nat) -> nat {
    3 + MAX_RPCS_PER_ITER_PER_SOURCE as nat * steps_per_request(n) + 2 * (n + 1)
}

/// Steps that a state has ahead of it at most.
spec fn steps_left(s: IterationView) -> int {
    let n = s.processors.len() as int;
    let cost = steps_per_request(s.processors.len()) as int;
    let sources = if s.source is L1 {
        steps_per_source(s.processors.len()) as int
    } else {
        0
    };
    let buckets = if s.finalized_only {
        0
    } else {
        n + 1
    };
    let groups = s.chunk.groups.len() as int;
    let rest = sources + buckets + 1 + (s.budget - groups) * cost + 1;
    match s.phase {
        Phase::ChainId => sources + steps_per_source(s.processors.len()),
        Phase::ConfirmedBlock => sources + steps_per_source(s.processors.len()) - 1,
        Phase::FinalizedBlock => sources + steps_per_source(s.processors.len()) - 2,
        Phase::Cursor { processor } => sources + buckets + s.budget * cost + 1 + (n - processor),
        Phase::Logs => rest + (groups - s.fetched.len()) + (3 * n) * groups,
        Phase::Process { group, member } => rest + (3 * n) * (groups - group - 1) + 3 * (
        s.chunk.groups[group as int].members.len() - member),
        Phase::Store { group, member, .. } => rest + (3 * n) * (groups - group - 1) + 3 * (
        s.chunk.groups[group as int].members.len() - member) - 1,
        Phase::Stall { group, member, .. } => rest + (3 * n) * (groups - group - 1) + 3 * (
        s.chunk.groups[group as int].members.len() - member) - 2,
        Phase::ChunkPause => sources + buckets + 1 + s.budget * cost + 1,
        Phase::TailPause => sources + buckets + 1,
        Phase::Finished => 0,
        Phase::Failed(_) => 0,
    }
}

proof fn lemma_idx_at_least(s: IterationView, i: int)
    requires
        s.states_wf(),
        0 <= i < s.states.len(),
    ensures
        s.states[i].idx >= i,
    decreases i,
{
    if i > 0 {
        lemma_idx_at_least(s, i - 1);
    }
}

/// No more states than processors, and no more members of a group than states.
pub(crate) proof fn lemma_members_bounded(s: IterationView, group: int)
    requires
        s.states_wf(),
        s.group_wf(group),
    ensures
        s.chunk.groups[group].members.len() <= s.processors.len(),
{
    let members = s.chunk.groups[group].members;
    let last = s.states.len() - 1;
    assert(0 <= members[0] < s.states.len());
    lemma_idx_at_least(s, last);
    assert(s.in_bucket(s.states[last].idx as int));
    members.unique_seq_to_set();
    let range = vstd::set_lib::set_int_range(0, s.states.len() as int);
    vstd::set_lib::lemma_int_range(0, s.states.len() as int);
    assert(members.to_set().subset_of(range)) by {
        assert forall|place: int| members.to_set().contains(place) implies range.contains(place) by {
            let m = members.index_of(place);
            assert(members[m] == place);
        }
    }
    vstd::set_lib::lemma_len_subset(members.to_set(), range);
}

proof fn lemma_chunk_cost(budget: int, groups: int, n: int, cost: int)
    requires
        1 <= groups <= budget,
        0 <= n,
        cost == 3 * n + 2,
    ensures
        (budget - groups) * cost + groups + (3 * n) * groups + 1 <= budget * cost,
        0 <= (budget - groups) * cost,
        (3 * n) * groups == (3 * n) * (groups - 1) + 3 * n,
{
    assert((budget - groups) * cost + groups + (3 * n) * groups + 1 <= budget * cost)
        by (nonlinear_arith)
        requires
            1 <= groups <= budget,
            0 <= n,
            cost == 3 * n + 2,
    ;
    assert(0 <= (budget - groups) * cost) by (nonlinear_arith)
        requires
            groups <= budget,
            0 <= n,
            cost == 3 * n + 2,
    ;
    assert((3 * n) * groups == (3 * n) * (groups - 1) + 3 * n) by (nonlinear_arith);
}

proof fn lemma_budget_cost(s: IterationView)
    ensures
        0 <= s.budget * steps_per_request(s.processors.len()),
        s.budget <= MAX_RPCS_PER_ITER_PER_SOURCE ==> s.budget * steps_per_request(s.processors.len())
            <= MAX_RPCS_PER_ITER_PER_SOURCE as nat * steps_per_request(s.processors.len()),
{
    let cost = steps_per_request(s.processors.len());
    let budget = s.budget;
    assert(0 <= budget * cost) by (nonlinear_arith)
        requires
            0 <= budget,
            0 <= cost,
    ;
    if budget <= MAX_RPCS_PER_ITER_PER_SOURCE {
        assert(budget * cost <= 9 * cost) by (nonlinear_arith)
            requires
                budget <= 9,
                0 <= cost,
        ;
    }
}

spec fn sources_left(s: IterationView) -> int {
    if s.source is L1 {
        steps_per_source(s.processors.len()) as int
    } else {
        0
    }
}

proof fn lemma_leaving(s: IterationView)
    requires
        s.processors.len() <= usize::MAX,
        s.budget <= MAX_RPCS_PER_ITER_PER_SOURCE,
        s.finalized is Some <==> s.wants(true),
    ensures
        0 <= steps_left(s.leave_source()) <= sources_left(s),
        0 <= steps_left(s.seek_finalized()) <= sources_left(s) + s.processors.len() + 1 + s.budget
            * steps_per_request(s.processors.len()),
        s.budget == 0 ==> steps_left(s.seek_finalized()) <= sources_left(s),
        0 <= steps_left(s.leave_bucket()),
{
    lemma_budget_cost(s);
    law_first_processor_is_first(s.processors, s.source, true, 0);
}

proof fn lemma_seeking_chunk(s: IterationView)
    requires
        s.processors.len() <= usize::MAX,
        s.budget <= MAX_RPCS_PER_ITER_PER_SOURCE,
        s.bucket_wf(),
    ensures
        0 <= steps_left(s.seek_chunk()) <= sources_left(s) + (if s.finalized_only {
            0
        } else {
            s.processors.len() + 1
        }) + 1 + s.budget * steps_per_request(s.processors.len()),
{
    lemma_budget_cost(s);
    lemma_leaving(s);
    if s.budget > 0 && any_due(s.states, s.to_block()) {
        law_chunk_is_bounded(s.states, s.to_block(), s.budget);
        let t = s.seek_chunk();
        lemma_chunk_cost(
            s.budget as int,
            t.chunk.groups.len() as int,
            s.processors.len() as int,
            steps_per_request(s.processors.len()) as int,
        );
    }
}

proof fn lemma_after_member_steps(s: IterationView, group: usize, member: usize)
    requires
        s.processors.len() <= usize::MAX,
        s.budget <= MAX_RPCS_PER_ITER_PER_SOURCE,
        s.serving(group as int, member as int),
    ensures
        0 <= steps_left(s.after_member(group, member)) < steps_left(
            IterationView { phase: Phase::Stall { group, member, next_block: 0 }, ..s },
        ),
{
    let n = s.processors.len() as int;
    let cost = steps_per_request(s.processors.len()) as int;
    let groups = s.chunk.groups.len() as int;
    lemma_budget_cost(s);
    lemma_chunk_cost(s.budget as int, groups, n, cost);
    let g = group as int;
    assert(0 <= (3 * n) * (groups - g - 1)) by (nonlinear_arith)
        requires
            0 <= n,
            g < groups,
    ;
    assert(s.group_wf(g));
    lemma_members_bounded(s, g);
    if member + 1 < s.chunk.groups[g].members.len() {
    } else if g + 1 < groups {
        assert(s.group_wf(g + 1));
        lemma_members_bounded(s, g + 1);
        assert((3 * n) * (groups - g - 1) == (3 * n) * (groups - g - 2) + 3 * n) by (nonlinear_arith);
        assert(0 <= (3 * n) * (groups - g - 2)) by (nonlinear_arith)
            requires
                0 <= n,
                g + 1 < groups,
        ;
    }
}

/// Every event leaves a sound state with fewer steps ahead of it.
proof fn lemma_steps_decrease(s: IterationView, event: Event)
    requires
        s.wf(),
        s.awaits(event),
    ensures
        0 <= steps_left(s.next(event)) < steps_left(s),
{
    let n = s.processors.len() as int;
    let cost = steps_per_request(s.processors.len()) as int;
    let groups = s.chunk.groups.len() as int;
    lemma_budget_cost(s);
    law_first_processor_is_first(s.processors, s.source, false, 0);
    law_first_processor_is_first(s.processors, s.source, true, 0);
    if in_chunk(s) {
        lemma_chunk_cost(s.budget as int, groups, n, cost);
    }
    match event {
        Event::ChainId(_) => {},
        Event::ConfirmedBlock(block) => {
            if !s.wants(true) {
                lemma_leaving(IterationView { confirmed: Some(block), ..s });
            }
        },
        Event::FinalizedBlock(block) => {
            lemma_leaving(IterationView { finalized: Some(block), ..s });
        },
        Event::Cursor { cursor, topic1, topic2 } => {
            let processor = s.phase->Cursor_processor;
            let mid = s.enlist(PState { idx: processor, cursor, topic1, topic2 });
            law_first_processor_is_first(s.processors, s.source, s.finalized_only, processor + 1);
            lemma_leaving(mid);
            if mid.states.len() > 0 {
                lemma_seeking_chunk(mid);
            }
        },
        Event::Logs(_) => {
            assert(s.group_wf(0));
            lemma_members_bounded(s, 0);
        },
        Event::Processed(_) => {
            let g = s.phase->Process_group as int;
            assert(0 <= (3 * n) * (groups - g - 1)) by (nonlinear_arith)
                requires
                    0 <= n,
                    g < groups,
            ;
        },
        Event::Stored => {
            let group = s.phase->Store_group;
            let member = s.phase->Store_member;
            let g = group as int;
            assert(0 <= (3 * n) * (groups - g - 1)) by (nonlinear_arith)
                requires
                    0 <= n,
                    g < groups,
            ;
            let mid = s.move_member(group, member, s.phase->Store_next_block);
            s.lemma_move_member(group, member, s.phase->Store_next_block);
            lemma_after_member_steps(mid, group, member);
        },
        Event::Slept => {
            match s.phase {
                Phase::Stall { group, member, next_block } => {
                    let mid = s.move_member(group, member, next_block);
                    s.lemma_move_member(group, member, next_block);
                    lemma_after_member_steps(mid, group, member);
                },
                Phase::ChunkPause => {
                    lemma_seeking_chunk(s);
                },
                _ => {
                    lemma_leaving(s);
                },
            }
        },
        Event::Failed => {},
    }
}

proof fn lemma_run_length(start: IterationView, events: Seq<Event>)
    requires
        start.wf(),
        is_run(start, events),
    ensures
        events.len() + steps_left(after(start, events)) <= steps_left(start),
        after(start, events).wf(),
        events.len() > 0 ==> 0 <= steps_left(after(start, events)),
    decreases events.len(),
{
    reveal(after);
    if events.len() > 0 {
        lemma_run_length(start, events.drop_last());
        let before = after(start, events.drop_last());
        before.law_next_keeps_wf(events.last());
        lemma_steps_decrease(before, events.last());
    }
}

/// A pass comes to an end: with `n` processors it takes at most twice the steps of a source.
pub proof fn law_passes_end(
    processors: Seq<ProcessorInfo>,
    event_expiration_blocks: u64,
    events: Seq<Event>,
)
    requires
        processors.len() <= usize::MAX,
        is_run(IterationView::begin(processors, event_expiration_blocks), events),
    ensures
        events.len() <= 2 * steps_per_source(processors.len()),
{
    let start = IterationView::begin(processors, event_expiration_blocks);
    IterationView::law_begin_is_wf(processors, event_expiration_blocks);
    lemma_run_length(start, events);
}

/// A pass that has returned waits for nothing more, and any other one can go on.
pub proof fn law_return_is_final(s: IterationView)
    ensures
        s.action() is Return ==> forall|event: Event| !s.awaits(event),
        !(s.action() is Return) ==> exists|event: Event| s.awaits(event),
{
    if !(s.action() is Return) {
        match s.phase {
            Phase::Stall { .. } => {
                assert(s.awaits(Event::Slept));
            },
            Phase::ChunkPause => {
                assert(s.awaits(Event::Slept));
            },
            Phase::TailPause => {
                assert(s.awaits(Event::Slept));
            },
            _ => {
                assert(s.awaits(Event::Failed));
            },
        }
    }
}

/// A failed action ends the pass with an error that says what the action was about; and a pass ends with
/// an error only after an action that failed.
pub proof fn law_failure_ends_the_pass(s: IterationView, event: Event)
    requires
        s.wf(),
        s.awaits(event),
    ensures
        event is Failed <==> s.next(event).action() is Return && s.next(event).action()->Return_0 is Err,
        event is Failed && s.action().is_request() ==> s.next(event).action() == ActionView::Return(
            Err(Failure::Client),
        ),
        event is Failed && (s.action() is LoadCursor || s.action() is StoreCursor) ==> s.next(
            event,
        ).action() == ActionView::Return(Err(Failure::Internal)),
        event is Failed && s.action() is ProcessEvents ==> s.next(event).action()
            == ActionView::Return(Err(Failure::Processor)),
{
}

/// Nothing is asked of a source that no processor needs: its chain only if it has processors, its last
/// confirmed and its last finalized block only if one of them is shown such blocks.
pub proof fn law_only_needed_facts_are_fetched(s: IterationView)
    requires
        s.wf(),
    ensures
        s.action() matches ActionView::FetchChainId { source } ==> exists|p: int|
            0 <= p < s.processors.len() && (#[trigger] s.processors[p]).source == source,
        s.action() matches ActionView::FetchConfirmedBlock { source } ==> exists|p: int|
            0 <= p < s.processors.len() && (#[trigger] s.processors[p]).source == source
                && !s.processors[p].only_finalized,
        s.action() matches ActionView::FetchFinalizedBlock { source } ==> exists|p: int|
            0 <= p < s.processors.len() && (#[trigger] s.processors[p]).source == source
                && s.processors[p].only_finalized,
{
    law_first_processor_is_first(s.processors, s.source, false, 0);
    law_first_processor_is_first(s.processors, s.source, true, 0);
    if let Some(p) = first_processor(s.processors, s.source, false, 0) {
        assert(s.processors[p as int].source == s.source);
    }
    if let Some(p) = first_processor(s.processors, s.source, true, 0) {
        assert(s.processors[p as int].source == s.source);
    }
}

/// No processor of a bucket is passed over when the cursors are loaded: none stands before the first one
/// that is asked for, none between one and the next, and none after the last.
pub proof fn law_every_cursor_is_loaded(s: IterationView, event: Event)
    requires
        s.wf(),
        s.awaits(event),
    ensures
        ({
            let t = s.next(event);
            match (s.phase, t.phase) {
                (Phase::Cursor { processor: p }, Phase::Cursor { processor: q }) => {
                    if t.source == s.source && t.finalized_only == s.finalized_only {
                        p < q && forall|i: int| p < i < q ==> !s.in_bucket(i)
                    } else {
                        &&& forall|i: int| p < i ==> !s.in_bucket(i)
                        &&& forall|i: int| i < q ==> !t.in_bucket(i)
                    }
                },
                (Phase::Cursor { processor: p }, Phase::Failed(_)) => true,
                (Phase::Cursor { processor: p }, _) => forall|i: int| p < i ==> !s.in_bucket(i),
                (_, Phase::Cursor { processor: q }) => forall|i: int| i < q ==> !t.in_bucket(i),
                _ => true,
            }
        }),
{
    let t = s.next(event);
    s.law_next_keeps_wf(event);
    law_first_processor_is_first(s.processors, s.source, false, 0);
    law_first_processor_is_first(s.processors, s.source, true, 0);
    if let Phase::Cursor { processor } = s.phase {
        law_first_processor_is_first(s.processors, s.source, s.finalized_only, processor + 1);
        law_first_processor_is_first(t.processors, t.source, t.finalized_only, 0);
    }
}

/// In a chunk every processor is handed logs at most once.
pub proof fn law_members_are_served_once(s: IterationView, a: int, m: int, b: int, k: int)
    requires
        s.chunk_wf(),
        0 <= a < s.chunk.groups.len(),
        0 <= b < s.chunk.groups.len(),
        0 <= m < s.chunk.groups[a].members.len(),
        0 <= k < s.chunk.groups[b].members.len(),
        a != b || m != k,
    ensures
        s.states[s.place(a, m)].idx != s.states[s.place(b, k)].idx,
{
    assert(s.group_wf(a));
    assert(s.group_wf(b));
    let x = s.place(a, m);
    let y = s.place(b, k);
    assert(s.chunk.groups[a].members[m] == x);
    assert(s.chunk.groups[b].members[k] == y);
    if x == y && a != b {
        if a < b {
            assert(s.chunk.groups[a].topic1 == s.chunk.groups[b].topic1);
        } else {
            assert(s.chunk.groups[b].topic1 == s.chunk.groups[a].topic1);
        }
        assert(false);
    }
    if x < y {
        assert(s.states[x].idx < s.states[y].idx);
    } else {
        assert(s.states[y].idx < s.states[x].idx);
    }
}

/// As long as a bucket is being served no cursor goes back, and a processor whose turn is over has moved
/// on by at least a block (where a further block can be numbered at all).
pub proof fn law_cursors_never_go_back(s: IterationView, event: Event)
    requires
        s.wf(),
        s.awaits(event),
    ensures
        ({
            let t = s.next(event);
            &&& s.phase is Store || s.phase is Stall || s.phase is Process || s.phase is Logs ==> {
                &&& t.states.len() == s.states.len()
                &&& forall|i: int|
                    0 <= i < s.states.len() ==> {
                        &&& (#[trigger] t.states[i]).idx == s.states[i].idx
                        &&& t.states[i].cursor >= s.states[i].cursor
                    }
            }
            &&& s.phase matches Phase::Stall { group, member, .. } ==> {
                let place = s.place(group as int, member as int);
                s.states[place].cursor < u64::MAX ==> t.states[place].cursor == s.states[place].cursor
                    + 1
            }
            &&& s.phase matches Phase::Store { group, member, next_block } ==> {
                let place = s.place(group as int, member as int);
                event is Stored && !(t.phase is Stall) ==> t.states[place].cursor == next_block
                    && next_block > s.states[place].cursor
            }
        }),
{
    if let Phase::Stall { group, member, next_block } = s.phase {
        assert(s.group_wf(group as int));
        assert(0 <= s.chunk.groups[group as int].members[member as int] < s.states.len());
    }
    if let Phase::Store { group, member, next_block } = s.phase {
        assert(s.group_wf(group as int));
        assert(0 <= s.chunk.groups[group as int].members[member as int] < s.states.len());
    }
}

/// A bucket is left behind only for want of requests: as long as some are left, its processors are
/// served until all of them are past its last block.
pub proof fn law_buckets_catch_up(s: IterationView)
    requires
        s.wf(),
        s.phase is ChunkPause,
    ensures
        ({
            let t = s.next(Event::Slept);
            &&& any_due(s.states, s.to_block()) && s.budget > 0 ==> t.phase is Logs
            &&& any_due(s.states, s.to_block()) && s.budget == 0 ==> t.phase is TailPause
            &&& !any_due(s.states, s.to_block()) ==> t == s.leave_bucket()
        }),
{
}

/// The state serves a bucket.
pub open spec fn serves_bucket(s: IterationView) -> bool {
    match s.phase {
        Phase::ChainId => false,
        Phase::ConfirmedBlock => false,
        Phase::FinalizedBlock => false,
        Phase::Finished => false,
        Phase::Failed(_) => false,
        _ => true,
    }
}

/// The L1 is served before the settlement layer, and of each source the processors that are shown confirmed
/// blocks before those that are shown finalized ones. A source that is turned to is asked for its chain
/// first, and has the full budget.
pub proof fn law_sources_and_buckets_come_in_order(s: IterationView, event: Event)
    requires
        s.wf(),
        s.awaits(event),
    ensures
        ({
            let t = s.next(event);
            &&& s.source is SL ==> t.source is SL
            &&& t.source != s.source ==> t.phase is ChainId && t.budget == MAX_RPCS_PER_ITER_PER_SOURCE
            &&& t.source == s.source ==> t.budget <= s.budget
            &&& serves_bucket(s) && t.source == s.source && s.finalized_only ==> t.finalized_only
            &&& serves_bucket(s) && serves_bucket(t) ==> t.source == s.source
        }),
{
}

} // verus!
