//! One pass of the watcher over its sources, as a state machine: from what came of the last action to
//! the next action.
use vstd::prelude::*;

use crate::chunk::{
    advance_cursor, any_due, block_after, can_resume, groups_due, is_behind, law_chunk_is_bounded,
    law_groups_partition, moved_on, next_block_to_process, next_chunk, plan_chunk, Chunk, ChunkView, PState,
    MAX_LOG_RANGE_BLOCKS,
};
use crate::logs::{in_order, law_order_keeps_logs, sort_logs, Log};
use crate::pause::Pause;
use crate::types::{EventsSource, H256};

verus! {

/// Requests for logs that one pass may make of each source.
pub const MAX_RPCS_PER_ITER_PER_SOURCE: usize = 9;

/// How often a failed request to a node is made again.
pub const MAX_RPC_RETRIES: usize = 5;

/// How often the node's client itself may repeat a request for logs.
pub const GET_EVENTS_INTERNAL_RETRY_LIMIT: usize = 0;

/// Milliseconds that the pause after a chunk lasts at least.
pub const INTER_CHUNK_JITTER_MS_MIN: u64 = 60;

/// Milliseconds that the pause after a chunk lasts at most.
pub const INTER_CHUNK_JITTER_MS_MAX: u64 = 150;

/// What the watcher reads of an event processor. It stays the same throughout a pass.
#[derive(Clone, Copy, Debug, PartialEq, Eq)]
pub struct ProcessorInfo {
    /// Chain that the processor's events come from.
    pub source: EventsSource,
    /// Whether the processor is shown finalized blocks only, or confirmed ones.
    pub only_finalized: bool,
}

/// What the failed action was about.
#[derive(Clone, Copy, Debug, PartialEq, Eq, Structural)]
pub enum Failure {
    /// A request to a node.
    Client,
    /// An access to the watcher's own storage.
    Internal,
    /// The work of an event processor.
    Processor,
}

/// What the pass waits for.
#[derive(Clone, Copy, Debug, PartialEq, Eq)]
pub enum Phase {
    ChainId,
    ConfirmedBlock,
    FinalizedBlock,
    Cursor { processor: usize },
    Logs,
    Process { group: usize, member: usize },
    Store { group: usize, member: usize, next_block: u64 },
    Stall { group: usize, member: usize, next_block: u64 },
    ChunkPause,
    TailPause,
    Finished,
    Failed(Failure),
}

/// What came of an action.
#[derive(Debug)]
pub enum Event {
    /// The id of the chain.
    ChainId(u64),
    /// The last confirmed block.
    ConfirmedBlock(u64),
    /// The last finalized block.
    FinalizedBlock(u64),
    /// The next block that a processor has yet to see, and the topics of its events.
    Cursor { cursor: u64, topic1: Option<H256>, topic2: Option<H256> },
    /// The logs that were asked for.
    Logs(Vec<Log>),
    /// How many of the logs that it was handed a processor has processed.
    Processed(usize),
    /// The next block of a processor is stored.
    Stored,
    /// The pause is over.
    Slept,
    /// The action failed.
    Failed,
}

/// What is to be done next.
#[derive(Debug)]
pub enum Action {
    /// Ask the node for the id of its chain.
    FetchChainId { source: EventsSource },
    /// Ask the node for its last confirmed block.
    FetchConfirmedBlock { source: EventsSource },
    /// Ask the node for its last finalized block.
    FetchFinalizedBlock { source: EventsSource },
    /// Read the next block of a processor, or set it to `default_block` where none is stored.
    LoadCursor { processor: usize, chain_id: u64, default_block: u64 },
    /// Ask the node for the logs of the blocks `from..=to` that have the two topics.
    FetchLogs {
        source: EventsSource,
        from: u64,
        to: u64,
        topic1: Option<H256>,
        topic2: Option<H256>,
        retry_limit: usize,
    },
    /// Hand logs to a processor.
    ProcessEvents { processor: usize, logs: Vec<Log> },
    /// Store the next block of a processor.
    StoreCursor { processor: usize, chain_id: u64, next_block: u64 },
    /// Wait.
    Sleep(Pause),
    /// The pass is over.
    Return(Result<(), Failure>),
}

/// An [`Action`], with its logs as a sequence.
#[verifier::ext_equal]
pub enum ActionView {
    FetchChainId { source: EventsSource },
    FetchConfirmedBlock { source: EventsSource },
    FetchFinalizedBlock { source: EventsSource },
    LoadCursor { processor: usize, chain_id: u64, default_block: u64 },
    FetchLogs {
        source: EventsSource,
        from: u64,
        to: u64,
        topic1: Option<H256>,
        topic2: Option<H256>,
        retry_limit: usize,
    },
    ProcessEvents { processor: usize, logs: Seq<Log> },
    StoreCursor { processor: usize, chain_id: u64, next_block: u64 },
    Sleep(Pause),
    Return(Result<(), Failure>),
}

impl View for Action {
    type V = ActionView;

    open spec fn view(&self) -> ActionView {
        match *self {
            Action::FetchChainId { source } => ActionView::FetchChainId { source },
            Action::FetchConfirmedBlock { source } => ActionView::FetchConfirmedBlock { source },
            Action::FetchFinalizedBlock { source } => ActionView::FetchFinalizedBlock { source },
            Action::LoadCursor { processor, chain_id, default_block } => ActionView::LoadCursor {
                processor,
                chain_id,
                default_block,
            },
            Action::FetchLogs { source, from, to, topic1, topic2, retry_limit } => ActionView::FetchLogs {
                source,
                from,
                to,
                topic1,
                topic2,
                retry_limit,
            },
            Action::ProcessEvents { processor, logs } => ActionView::ProcessEvents {
                processor,
                logs: logs@,
            },
            Action::StoreCursor { processor, chain_id, next_block } => ActionView::StoreCursor {
                processor,
                chain_id,
                next_block,
            },
            Action::Sleep(pause) => ActionView::Sleep(pause),
            Action::Return(result) => ActionView::Return(result),
        }
    }
}

impl ActionView {
    /// The action is a request to a node.
    pub open spec fn is_request(self) -> bool {
        self is FetchChainId || self is FetchConfirmedBlock || self is FetchFinalizedBlock
            || self is FetchLogs
    }
}

impl Action {
    /// How often the action is tried again before it counts as failed: only requests to a node are.
    pub fn max_retries(&self) -> (retries: usize)
        ensures
            retries == if self@.is_request() { MAX_RPC_RETRIES } else { 0 },
    {
        match self {
            Action::FetchChainId { .. } => MAX_RPC_RETRIES,
            Action::FetchConfirmedBlock { .. } => MAX_RPC_RETRIES,
            Action::FetchFinalizedBlock { .. } => MAX_RPC_RETRIES,
            Action::FetchLogs { .. } => MAX_RPC_RETRIES,
            _ => 0,
        }
    }
}

/// Pause after a processor that could not be taken past its cursor.
pub open spec fn stall_pause() -> Pause {
    Pause { min_ms: 150, max_ms: 350 }
}

/// Pause after a chunk.
pub open spec fn chunk_pause() -> Pause {
    Pause { min_ms: INTER_CHUNK_JITTER_MS_MIN, max_ms: INTER_CHUNK_JITTER_MS_MAX }
}

/// Pause after a bucket that is still behind.
pub open spec fn tail_pause() -> Pause {
    Pause { min_ms: 200, max_ms: 600 }
}

/// The first processor from `start` on that has the given source and finality.
pub open spec fn first_processor(
    processors: Seq<ProcessorInfo>,
    source: EventsSource,
    only_finalized: bool,
    start: int,
) -> Option<usize>
    decreases processors.len() - start,
{
    if start >= processors.len() {
        None
    } else if processors[start].source == source && processors[start].only_finalized
        == only_finalized {
        Some(start as usize)
    } else {
        first_processor(processors, source, only_finalized, start + 1)
    }
}

/// The state of a pass.
///
/// The processors of a source are served in two buckets: first those that are shown confirmed blocks,
/// then those that are shown finalized ones. A bucket is served in chunks of blocks.
#[verifier::ext_equal]
pub struct IterationView {
    pub processors: Seq<ProcessorInfo>,
    pub event_expiration_blocks: u64,
    /// Source that is being served.
    pub source: EventsSource,
    pub chain_id: u64,
    /// Last confirmed block of the source, where it was asked for.
    pub confirmed: Option<u64>,
    /// Last finalized block of the source, where it was asked for.
    pub finalized: Option<u64>,
    /// Requests for logs that are left for the source.
    pub budget: nat,
    /// Bucket that is being served.
    pub finalized_only: bool,
    /// Processors of the bucket.
    pub states: Seq<PState>,
    /// Chunk that is being served.
    pub chunk: ChunkView,
    /// Logs of the chunk's groups, as far as they were fetched.
    pub fetched: Seq<Seq<Log>>,
    pub phase: Phase,
}

impl IterationView {
    /// Some processor of the source has the given finality.
    pub open spec fn wants(self, only_finalized: bool) -> bool {
        first_processor(self.processors, self.source, only_finalized, 0) is Some
    }

    /// Last block that the processors of the given finality may see, where it is known.
    pub open spec fn tip_of(self, only_finalized: bool) -> Option<u64> {
        if only_finalized {
            self.finalized
        } else {
            self.confirmed
        }
    }

    /// Last block that the bucket may see.
    pub open spec fn to_block(self) -> u64 {
        self.tip_of(self.finalized_only)->0
    }

    /// The processor belongs to the bucket.
    pub open spec fn in_bucket(self, processor: int) -> bool {
        &&& 0 <= processor < self.processors.len()
        &&& self.processors[processor].source == self.source
        &&& self.processors[processor].only_finalized == self.finalized_only
    }

    /// Block from which a processor starts of which nothing is stored: events that are older than the
    /// expiration are not looked for.
    pub open spec fn default_block(self) -> u64 {
        if self.event_expiration_blocks <= self.to_block() {
            (self.to_block() - self.event_expiration_blocks) as u64
        } else {
            0
        }
    }

    /// Place among the states of a member of a group of the chunk.
    pub open spec fn place(self, group: int, member: int) -> int {
        self.chunk.groups[group].members[member]
    }

    /// The pass is over.
    pub open spec fn finish(self) -> IterationView {
        IterationView { phase: Phase::Finished, ..self }
    }

    /// The source has processors.
    pub open spec fn serves(self, source: EventsSource) -> bool {
        ||| first_processor(self.processors, source, false, 0) is Some
        ||| first_processor(self.processors, source, true, 0) is Some
    }

    /// Starts to serve `source`.
    pub open spec fn open_source(self, source: EventsSource) -> IterationView {
        IterationView {
            source,
            confirmed: None,
            finalized: None,
            budget: MAX_RPCS_PER_ITER_PER_SOURCE as nat,
            phase: Phase::ChainId,
            ..self
        }
    }

    /// Goes on to the settlement layer, if it has processors.
    pub open spec fn seek_settlement_layer(self) -> IterationView {
        if self.serves(EventsSource::SL) {
            self.open_source(EventsSource::SL)
        } else {
            self.finish()
        }
    }

    /// Goes on after the source.
    pub open spec fn leave_source(self) -> IterationView {
        match self.source {
            EventsSource::L1 => self.seek_settlement_layer(),
            EventsSource::SL => self.finish(),
        }
    }

    /// Starts to serve a bucket: the cursors of its processors are loaded first.
    pub open spec fn open_bucket(self, finalized_only: bool) -> IterationView {
        IterationView {
            finalized_only,
            states: Seq::empty(),
            phase: Phase::Cursor {
                processor: first_processor(self.processors, self.source, finalized_only, 0)->0,
            },
            ..self
        }
    }

    /// Goes on to the finalized bucket, if it has processors and requests are left.
    pub open spec fn seek_finalized(self) -> IterationView {
        if self.budget > 0 && self.finalized is Some {
            self.open_bucket(true)
        } else {
            self.leave_source()
        }
    }

    /// Goes on to the first bucket that has processors.
    pub open spec fn seek_confirmed(self) -> IterationView {
        if self.budget > 0 && self.confirmed is Some {
            self.open_bucket(false)
        } else {
            self.seek_finalized()
        }
    }

    /// Goes on after the bucket.
    pub open spec fn leave_bucket(self) -> IterationView {
        if self.finalized_only {
            self.leave_source()
        } else {
            self.seek_finalized()
        }
    }

    /// Asks for the last finalized block, if a processor needs it.
    pub open spec fn seek_finalized_block(self) -> IterationView {
        if self.wants(true) {
            IterationView { phase: Phase::FinalizedBlock, ..self }
        } else {
            self.seek_confirmed()
        }
    }

    /// Asks for the last confirmed block, if a processor needs it.
    pub open spec fn seek_confirmed_block(self) -> IterationView {
        if self.wants(false) {
            IterationView { phase: Phase::ConfirmedBlock, ..self }
        } else {
            self.seek_finalized_block()
        }
    }

    /// Goes on with the next chunk of the bucket, as long as one is due and requests are left, and else
    /// leaves the bucket, after a pause if it is still behind.
    pub open spec fn seek_chunk(self) -> IterationView {
        if self.budget > 0 && any_due(self.states, self.to_block()) {
            IterationView {
                chunk: next_chunk(self.states, self.to_block(), self.budget)->0,
                fetched: Seq::empty(),
                phase: Phase::Logs,
                ..self
            }
        } else if any_due(self.states, self.to_block()) {
            IterationView { phase: Phase::TailPause, ..self }
        } else {
            self.leave_bucket()
        }
    }

    /// Loads the cursor of the bucket's next processor from `start` on, and goes on to the chunks after
    /// the last one.
    pub open spec fn seek_cursor(self, start: int) -> IterationView {
        match first_processor(self.processors, self.source, self.finalized_only, start) {
            Some(processor) => IterationView { phase: Phase::Cursor { processor }, ..self },
            None => if self.states.len() == 0 {
                self.leave_bucket()
            } else {
                self.seek_chunk()
            },
        }
    }

    /// Takes a processor into the bucket, unless it has seen everything already.
    pub open spec fn enlist(self, state: PState) -> IterationView {
        if state.cursor <= self.to_block() {
            IterationView { states: self.states.push(state), ..self }
        } else {
            self
        }
    }

    /// Goes on after a member of a group: to the next member, to the next group, or, with the requests
    /// paid for, to the pause after the chunk.
    pub open spec fn after_member(self, group: usize, member: usize) -> IterationView {
        if member + 1 < self.chunk.groups[group as int].members.len() {
            IterationView {
                phase: Phase::Process { group, member: (member + 1) as usize },
                ..self
            }
        } else if group + 1 < self.chunk.groups.len() {
            IterationView { phase: Phase::Process { group: (group + 1) as usize, member: 0 }, ..self }
        } else {
            IterationView {
                budget: (self.budget - self.chunk.groups.len()) as nat,
                phase: Phase::ChunkPause,
                ..self
            }
        }
    }

    /// Moves the cursor of a member of a group on to `next_block`.
    pub open spec fn move_member(self, group: usize, member: usize, next_block: u64) -> IterationView {
        let place = self.place(group as int, member as int);
        let state = self.states[place];
        IterationView {
            states: self.states.update(
                place,
                PState { cursor: moved_on(state.cursor, next_block), ..state },
            ),
            ..self
        }
    }

    /// What the action that the pass waits for is about.
    pub open spec fn failure(self) -> Failure {
        match self.phase {
            Phase::Cursor { .. } => Failure::Internal,
            Phase::Store { .. } => Failure::Internal,
            Phase::Process { .. } => Failure::Processor,
            _ => Failure::Client,
        }
    }

    /// The pass waits for such an event.
    pub open spec fn awaits(self, event: Event) -> bool {
        match event {
            Event::ChainId(_) => self.phase is ChainId,
            Event::ConfirmedBlock(_) => self.phase is ConfirmedBlock,
            Event::FinalizedBlock(_) => self.phase is FinalizedBlock,
            Event::Cursor { .. } => self.phase is Cursor,
            Event::Logs(_) => self.phase is Logs,
            Event::Processed(processed) => match self.phase {
                Phase::Process { group, member } => can_resume(
                    processed as nat,
                    self.fetched[group as int],
                ),
                _ => false,
            },
            Event::Stored => self.phase is Store,
            Event::Slept => self.phase is Stall || self.phase is ChunkPause || self.phase is TailPause,
            Event::Failed => match self.phase {
                Phase::Stall { .. } => false,
                Phase::ChunkPause => false,
                Phase::TailPause => false,
                Phase::Finished => false,
                Phase::Failed(_) => false,
                _ => true,
            },
        }
    }

    /// The state of a pass that starts.
    pub open spec fn begin(processors: Seq<ProcessorInfo>, event_expiration_blocks: u64) -> IterationView {
        let idle = IterationView {
            processors,
            event_expiration_blocks,
            source: EventsSource::L1,
            chain_id: 0,
            confirmed: None,
            finalized: None,
            budget: 0,
            finalized_only: false,
            states: Seq::empty(),
            chunk: ChunkView { from: 0, to: 0, groups: Seq::empty() },
            fetched: Seq::empty(),
            phase: Phase::Finished,
        };
        if idle.serves(EventsSource::L1) {
            idle.open_source(EventsSource::L1)
        } else {
            idle.seek_settlement_layer()
        }
    }

    /// The state after an event.
    pub open spec fn next(self, event: Event) -> IterationView {
        match event {
            Event::ChainId(chain_id) => IterationView { chain_id, ..self }.seek_confirmed_block(),
            Event::ConfirmedBlock(block) => IterationView {
                confirmed: Some(block),
                ..self
            }.seek_finalized_block(),
            Event::FinalizedBlock(block) => IterationView {
                finalized: Some(block),
                ..self
            }.seek_confirmed(),
            Event::Cursor { cursor, topic1, topic2 } => {
                let processor = self.phase->Cursor_processor;
                self.enlist(PState { idx: processor, cursor, topic1, topic2 }).seek_cursor(
                    processor + 1,
                )
            },
            Event::Logs(logs) => {
                let fetched = self.fetched.push(in_order(logs@));
                IterationView {
                    fetched,
                    phase: if fetched.len() < self.chunk.groups.len() {
                        Phase::Logs
                    } else {
                        Phase::Process { group: 0, member: 0 }
                    },
                    ..self
                }
            },
            Event::Processed(processed) => {
                let group = self.phase->Process_group;
                let member = self.phase->Process_member;
                let next_block = block_after(
                    processed as nat,
                    self.fetched[group as int],
                    self.chunk.from,
                    self.chunk.to,
                );
                IterationView { phase: Phase::Store { group, member, next_block }, ..self }
            },
            Event::Stored => {
                let group = self.phase->Store_group;
                let member = self.phase->Store_member;
                let next_block = self.phase->Store_next_block;
                if next_block <= self.states[self.place(group as int, member as int)].cursor {
                    IterationView { phase: Phase::Stall { group, member, next_block }, ..self }
                } else {
                    self.move_member(group, member, next_block).after_member(group, member)
                }
            },
            Event::Slept => match self.phase {
                Phase::Stall { group, member, next_block } => self.move_member(
                    group,
                    member,
                    next_block,
                ).after_member(group, member),
                Phase::ChunkPause => self.seek_chunk(),
                _ => self.leave_bucket(),
            },
            Event::Failed => IterationView { phase: Phase::Failed(self.failure()), ..self },
        }
    }

    /// The action that the pass waits for.
    pub open spec fn action(self) -> ActionView {
        match self.phase {
            Phase::ChainId => ActionView::FetchChainId { source: self.source },
            Phase::ConfirmedBlock => ActionView::FetchConfirmedBlock { source: self.source },
            Phase::FinalizedBlock => ActionView::FetchFinalizedBlock { source: self.source },
            Phase::Cursor { processor } => ActionView::LoadCursor {
                processor,
                chain_id: self.chain_id,
                default_block: self.default_block(),
            },
            Phase::Logs => ActionView::FetchLogs {
                source: self.source,
                from: self.chunk.from,
                to: self.chunk.to,
                topic1: self.chunk.groups[self.fetched.len() as int].topic1,
                topic2: self.chunk.groups[self.fetched.len() as int].topic2,
                retry_limit: GET_EVENTS_INTERNAL_RETRY_LIMIT,
            },
            Phase::Process { group, member } => ActionView::ProcessEvents {
                processor: self.states[self.place(group as int, member as int)].idx,
                logs: self.fetched[group as int],
            },
            Phase::Store { group, member, next_block } => ActionView::StoreCursor {
                processor: self.states[self.place(group as int, member as int)].idx,
                chain_id: self.chain_id,
                next_block,
            },
            Phase::Stall { .. } => ActionView::Sleep(stall_pause()),
            Phase::ChunkPause => ActionView::Sleep(chunk_pause()),
            Phase::TailPause => ActionView::Sleep(tail_pause()),
            Phase::Finished => ActionView::Return(Ok(())),
            Phase::Failed(failure) => ActionView::Return(Err(failure)),
        }
    }
}

impl IterationView {
    /// The tips that the source's processors need are known, and so is the tip of the bucket.
    pub open spec fn tips_known(self) -> bool {
        &&& self.confirmed is Some <==> self.wants(false)
        &&& self.finalized is Some <==> self.wants(true)
        &&& self.tip_of(self.finalized_only) is Some
    }

    /// The states belong to processors of the bucket, each to another one.
    pub open spec fn states_wf(self) -> bool {
        &&& forall|i: int|
            0 <= i < self.states.len() ==> self.in_bucket((#[trigger] self.states[i]).idx as int)
        &&& forall|i: int, j: int|
            0 <= i < j < self.states.len() ==> (#[trigger] self.states[i]).idx < (
            #[trigger] self.states[j]).idx
    }

    /// The bucket that is being served is sound.
    pub open spec fn bucket_wf(self) -> bool {
        &&& self.tips_known()
        &&& self.states_wf()
        &&& self.states.len() > 0
    }

    /// A group of the chunk has members, each another state, and all of them have its topics.
    pub open spec fn group_wf(self, group: int) -> bool {
        let members = self.chunk.groups[group].members;
        &&& members.len() > 0
        &&& members.no_duplicates()
        &&& forall|m: int|
            0 <= m < members.len() ==> {
                &&& 0 <= #[trigger] members[m] < self.states.len()
                &&& self.states[members[m]].topic1 == self.chunk.groups[group].topic1
                &&& self.states[members[m]].topic2 == self.chunk.groups[group].topic2
            }
    }

    /// The chunk that is being served is sound: it lies within the bucket's blocks, its requests are
    /// within the budget, and each pair of topics is asked for once.
    pub open spec fn chunk_wf(self) -> bool {
        &&& self.bucket_wf()
        &&& self.chunk.from <= self.chunk.to <= self.to_block()
        &&& self.chunk.to - self.chunk.from < MAX_LOG_RANGE_BLOCKS
        &&& 0 < self.chunk.groups.len() <= self.budget
        &&& forall|g: int| 0 <= g < self.chunk.groups.len() ==> #[trigger] self.group_wf(g)
        &&& forall|a: int, b: int|
            0 <= a < b < self.chunk.groups.len() ==> (#[trigger] self.chunk.groups[a]).topic1 != (
            #[trigger] self.chunk.groups[b]).topic1 || self.chunk.groups[a].topic2
                != self.chunk.groups[b].topic2
        &&& self.fetched.len() <= self.chunk.groups.len()
        &&& forall|g: int| 0 <= g < self.fetched.len() ==> #[trigger] is_ordered(self.fetched[g])
    }

    /// The chunk's logs are there, and the member of the group exists.
    pub open spec fn serving(self, group: int, member: int) -> bool {
        &&& self.chunk_wf()
        &&& self.fetched.len() == self.chunk.groups.len()
        &&& 0 <= group < self.chunk.groups.len()
        &&& 0 <= member < self.chunk.groups[group].members.len()
    }

    /// The state is sound: it holds what its phase builds on.
    pub open spec fn wf(self) -> bool {
        &&& self.processors.len() <= usize::MAX
        &&& self.budget <= MAX_RPCS_PER_ITER_PER_SOURCE
        &&& match self.phase {
            Phase::ChainId => {
                &&& self.serves(self.source)
                &&& self.confirmed is None
                &&& self.finalized is None
                &&& self.budget == MAX_RPCS_PER_ITER_PER_SOURCE
            },
            Phase::ConfirmedBlock => {
                &&& self.wants(false)
                &&& self.confirmed is None
                &&& self.finalized is None
                &&& self.budget == MAX_RPCS_PER_ITER_PER_SOURCE
            },
            Phase::FinalizedBlock => {
                &&& self.wants(true)
                &&& self.confirmed is Some <==> self.wants(false)
                &&& self.finalized is None
                &&& self.budget == MAX_RPCS_PER_ITER_PER_SOURCE
            },
            Phase::Cursor { processor } => {
                &&& self.tips_known()
                &&& self.budget > 0
                &&& self.in_bucket(processor as int)
                &&& self.states_wf()
                &&& forall|i: int|
                    0 <= i < self.states.len() ==> {
                        &&& (#[trigger] self.states[i]).idx < processor
                        &&& self.states[i].cursor <= self.to_block()
                    }
            },
            Phase::Logs => self.chunk_wf() && self.fetched.len() < self.chunk.groups.len(),
            Phase::Process { group, member } => self.serving(group as int, member as int),
            Phase::Store { group, member, .. } => self.serving(group as int, member as int),
            Phase::Stall { group, member, next_block } => {
                &&& self.serving(group as int, member as int)
                &&& next_block <= self.states[self.place(group as int, member as int)].cursor
            },
            Phase::ChunkPause => self.bucket_wf(),
            Phase::TailPause => {
                &&& self.bucket_wf()
                &&& self.budget == 0
                &&& any_due(self.states, self.to_block())
            },
            Phase::Finished => true,
            Phase::Failed(_) => true,
        }
    }
}

/// No log stands behind one that it precedes.
pub open spec fn is_ordered(logs: Seq<Log>) -> bool {
    forall|i: int, j: int|
        0 <= i < j < logs.len() ==> !(#[trigger] logs[j].precedes(#[trigger] logs[i]))
}

/// [`first_processor`] finds a processor that fits, and skips none that does.
pub proof fn law_first_processor_is_first(
    processors: Seq<ProcessorInfo>,
    source: EventsSource,
    only_finalized: bool,
    start: int,
)
    requires
        0 <= start,
        processors.len() <= usize::MAX,
    ensures
        match first_processor(processors, source, only_finalized, start) {
            Some(p) => {
                &&& start <= p < processors.len()
                &&& processors[p as int].source == source
                &&& processors[p as int].only_finalized == only_finalized
                &&& forall|i: int|
                    start <= i < p ==> (#[trigger] processors[i]).source != source
                        || processors[i].only_finalized != only_finalized
            },
            None => forall|i: int|
                start <= i < processors.len() ==> (#[trigger] processors[i]).source != source
                    || processors[i].only_finalized != only_finalized,
        },
    decreases processors.len() - start,
{
    if start < processors.len() {
        law_first_processor_is_first(processors, source, only_finalized, start + 1);
    }
}

impl IterationView {
    proof fn lemma_seek_settlement_layer(self)
        requires
            self.processors.len() <= usize::MAX,
            self.budget <= MAX_RPCS_PER_ITER_PER_SOURCE,
        ensures
            self.seek_settlement_layer().wf(),
    {
    }

    pub(crate) proof fn lemma_seek_finalized(self)
        requires
            self.processors.len() <= usize::MAX,
            self.budget <= MAX_RPCS_PER_ITER_PER_SOURCE,
            self.confirmed is Some <==> self.wants(false),
            self.finalized is Some <==> self.wants(true),
        ensures
            self.seek_finalized().wf(),
            self.leave_source().wf(),
            self.leave_bucket().wf(),
    {
        self.lemma_seek_settlement_layer();
        law_first_processor_is_first(self.processors, self.source, true, 0);
    }

    pub(crate) proof fn lemma_seek_confirmed(self)
        requires
            self.processors.len() <= usize::MAX,
            self.budget <= MAX_RPCS_PER_ITER_PER_SOURCE,
            self.confirmed is Some <==> self.wants(false),
            self.finalized is Some <==> self.wants(true),
        ensures
            self.seek_confirmed().wf(),
    {
        self.lemma_seek_finalized();
        law_first_processor_is_first(self.processors, self.source, false, 0);
    }

    pub(crate) proof fn lemma_seek_chunk(self)
        requires
            self.processors.len() <= usize::MAX,
            self.budget <= MAX_RPCS_PER_ITER_PER_SOURCE,
            self.bucket_wf(),
        ensures
            self.seek_chunk().wf(),
    {
        self.lemma_seek_finalized();
        if self.budget > 0 && any_due(self.states, self.to_block()) {
            law_chunk_is_bounded(self.states, self.to_block(), self.budget);
            let after = self.seek_chunk();
            law_groups_partition(self.states, after.chunk.to);
            let all = groups_due(self.states, after.chunk.to);
            assert forall|g: int| 0 <= g < after.chunk.groups.len() implies #[trigger] after.group_wf(
                g,
            ) by {
                assert(after.chunk.groups[g] == all[g]);
                let members = all[g].members;
                assert forall|m: int| 0 <= m < members.len() implies 0 <= #[trigger] members[m]
                    < self.states.len() && self.states[members[m]].topic1 == all[g].topic1
                    && self.states[members[m]].topic2 == all[g].topic2 by {
                    assert(all[g].members[m] == members[m]);
                }
            }
            assert forall|a: int, b: int| 0 <= a < b < after.chunk.groups.len() implies (
            #[trigger] after.chunk.groups[a]).topic1 != (#[trigger] after.chunk.groups[b]).topic1
                || after.chunk.groups[a].topic2 != after.chunk.groups[b].topic2 by {
                assert(after.chunk.groups[a] == all[a]);
                assert(after.chunk.groups[b] == all[b]);
            }
        }
    }

    proof fn lemma_phase_keeps_chunk(self, phase: Phase)
        requires
            self.chunk_wf(),
        ensures
            (IterationView { phase, ..self }).chunk_wf(),
    {
        let after = IterationView { phase, ..self };
        assert forall|g: int| 0 <= g < after.chunk.groups.len() implies #[trigger] after.group_wf(
            g,
        ) by {
            assert(self.group_wf(g));
        }
    }

    pub(crate) proof fn lemma_move_member(self, group: usize, member: usize, next_block: u64)
        requires
            self.processors.len() <= usize::MAX,
            self.budget <= MAX_RPCS_PER_ITER_PER_SOURCE,
            self.serving(group as int, member as int),
        ensures
            self.move_member(group, member, next_block).serving(group as int, member as int),
            self.move_member(group, member, next_block).after_member(group, member).wf(),
    {
        let after = self.move_member(group, member, next_block);
        let place = self.place(group as int, member as int);
        assert(self.group_wf(group as int));
        assert(0 <= place < self.states.len());
        assert forall|g: int| 0 <= g < after.chunk.groups.len() implies #[trigger] after.group_wf(
            g,
        ) by {
            assert(self.group_wf(g));
        }
        assert(after.chunk_wf());
        after.lemma_phase_keeps_chunk(after.after_member(group, member).phase);
        if group + 1 < after.chunk.groups.len() {
            assert(after.group_wf(group + 1));
        }
    }

    /// A sound state stays sound, whatever comes of the action that it waits for.
    pub proof fn law_next_keeps_wf(self, event: Event)
        requires
            self.wf(),
            self.awaits(event),
        ensures
            self.next(event).wf(),
    {
        law_first_processor_is_first(self.processors, self.source, false, 0);
        law_first_processor_is_first(self.processors, self.source, true, 0);
        match event {
            Event::ChainId(chain_id) => {
            },
            Event::ConfirmedBlock(block) => {
                if !self.wants(true) {
                    IterationView { confirmed: Some(block), ..self }.lemma_seek_confirmed();
                }
            },
            Event::FinalizedBlock(block) => {
                IterationView { finalized: Some(block), ..self }.lemma_seek_confirmed();
            },
            Event::Cursor { cursor, topic1, topic2 } => {
                let processor = self.phase->Cursor_processor;
                let mid = self.enlist(PState { idx: processor, cursor, topic1, topic2 });
                law_first_processor_is_first(self.processors, self.source, self.finalized_only, processor + 1);
                mid.lemma_seek_finalized();
                if mid.states.len() > 0 {
                    mid.lemma_seek_chunk();
                }
            },
            Event::Logs(logs) => {
                law_order_keeps_logs(logs@);
                assert(self.group_wf(0));
                let after = self.next(event);
                assert forall|g: int| 0 <= g < after.chunk.groups.len() implies #[trigger] after.group_wf(
                    g,
                ) by {
                    assert(self.group_wf(g));
                }
                assert forall|g: int| 0 <= g < after.fetched.len() implies #[trigger] is_ordered(
                    after.fetched[g],
                ) by {
                    if g < self.fetched.len() {
                        assert(is_ordered(self.fetched[g]));
                    }
                }
            },
            Event::Processed(processed) => {
                self.lemma_phase_keeps_chunk(self.next(event).phase);
            },
            Event::Stored => {
                let group = self.phase->Store_group;
                let member = self.phase->Store_member;
                self.lemma_move_member(group, member, self.phase->Store_next_block);
                self.lemma_phase_keeps_chunk(self.next(event).phase);
            },
            Event::Slept => {
                match self.phase {
                    Phase::Stall { group, member, next_block } => {
                        self.lemma_move_member(group, member, next_block);
                    },
                    Phase::ChunkPause => {
                        self.lemma_seek_chunk();
                    },
                    _ => {
                        self.lemma_seek_finalized();
                    },
                }
            },
            Event::Failed => {},
        }
    }

    /// A pass starts in a sound state.
    pub proof fn law_begin_is_wf(processors: Seq<ProcessorInfo>, event_expiration_blocks: u64)
        requires
            processors.len() <= usize::MAX,
        ensures
            IterationView::begin(processors, event_expiration_blocks).wf(),
    {
    }
}

/// One pass of the watcher over its sources.
///
/// [`LoopIteration::action`] says what is to be done; [`LoopIteration::step`] takes what came of it.
#[derive(Debug)]
pub struct LoopIteration {
    processors: Vec<ProcessorInfo>,
    event_expiration_blocks: u64,
    source: EventsSource,
    chain_id: u64,
    confirmed: Option<u64>,
    finalized: Option<u64>,
    budget: usize,
    finalized_only: bool,
    states: Vec<PState>,
    chunk: Chunk,
    fetched: Vec<Vec<Log>>,
    phase: Phase,
}

/// The views of `fetched`.
pub open spec fn log_views(fetched: Seq<Vec<Log>>) -> Seq<Seq<Log>> {
    fetched.map_values(|logs: Vec<Log>| logs@)
}

impl View for LoopIteration {
    type V = IterationView;

    closed spec fn view(&self) -> IterationView {
        IterationView {
            processors: self.processors@,
            event_expiration_blocks: self.event_expiration_blocks,
            source: self.source,
            chain_id: self.chain_id,
            confirmed: self.confirmed,
            finalized: self.finalized,
            budget: self.budget as nat,
            finalized_only: self.finalized_only,
            states: self.states@,
            chunk: self.chunk@,
            fetched: log_views(self.fetched@),
            phase: self.phase,
        }
    }
}

impl LoopIteration {
    /// Starts a pass over the events of `processors`. Of processors of which nothing is stored, events
    /// older than `event_expiration_blocks` are not looked for.
    pub fn begin(processors: Vec<ProcessorInfo>, event_expiration_blocks: u64) -> (iteration: LoopIteration)
        ensures
            iteration@ == IterationView::begin(processors@, event_expiration_blocks),
            iteration@.wf(),
    {
        proof {
            assert(processors@.len() == processors.len());
            IterationView::law_begin_is_wf(processors@, event_expiration_blocks);
        }
        let mut iteration = LoopIteration {
            processors,
            event_expiration_blocks,
            source: EventsSource::L1,
            chain_id: 0,
            confirmed: None,
            finalized: None,
            budget: 0,
            finalized_only: false,
            states: Vec::new(),
            chunk: Chunk { from: 0, to: 0, groups: Vec::new() },
            fetched: Vec::new(),
            phase: Phase::Finished,
        };
        proof {
            assert(iteration@.chunk.groups =~= Seq::empty());
            assert(iteration@.fetched =~= Seq::empty());
        }
        if iteration.has_processors(EventsSource::L1) {
            iteration.open_source(EventsSource::L1);
        } else {
            iteration.seek_settlement_layer();
        }
        iteration
    }

    /// Finds the first processor from `start` on that has the given source and finality.
    fn find_processor(&self, source: EventsSource, only_finalized: bool, start: usize) -> (found: Option<
        usize,
    >)
        requires
            start <= self@.processors.len(),
        ensures
            found == first_processor(self@.processors, source, only_finalized, start as int),
    {
        let mut i: usize = start;
        while i < self.processors.len()
            invariant
                i <= self.processors.len(),
                first_processor(self@.processors, source, only_finalized, start as int)
                    == first_processor(self@.processors, source, only_finalized, i as int),
            decreases self.processors.len() - i,
        {
            if self.processors[i].source == source && self.processors[i].only_finalized
                == only_finalized {
                return Some(i);
            }
            i = i + 1;
        }
        None
    }

    fn has_processors(&self, source: EventsSource) -> (has: bool)
        ensures
            has == self@.serves(source),
    {
        self.find_processor(source, false, 0).is_some() || self.find_processor(
            source,
            true,
            0,
        ).is_some()
    }

    fn open_source(&mut self, source: EventsSource)
        ensures
            final(self)@ == old(self)@.open_source(source),
    {
        self.source = source;
        self.confirmed = None;
        self.finalized = None;
        self.budget = MAX_RPCS_PER_ITER_PER_SOURCE;
        self.phase = Phase::ChainId;
    }

    fn seek_settlement_layer(&mut self)
        ensures
            final(self)@ == old(self)@.seek_settlement_layer(),
    {
        if self.has_processors(EventsSource::SL) {
            self.open_source(EventsSource::SL);
        } else {
            self.phase = Phase::Finished;
        }
    }

    fn leave_source(&mut self)
        ensures
            final(self)@ == old(self)@.leave_source(),
    {
        match self.source {
            EventsSource::L1 => self.seek_settlement_layer(),
            EventsSource::SL => {
                self.phase = Phase::Finished;
            },
        }
    }

    fn open_bucket(&mut self, finalized_only: bool)
        requires
            old(self)@.wants(finalized_only),
        ensures
            final(self)@ == old(self)@.open_bucket(finalized_only),
    {
        self.finalized_only = finalized_only;
        self.states = Vec::new();
        if let Some(processor) = self.find_processor(self.source, finalized_only, 0) {
            self.phase = Phase::Cursor { processor };
        }
    }

    fn seek_finalized(&mut self)
        requires
            old(self)@.finalized is Some ==> old(self)@.wants(true),
        ensures
            final(self)@ == old(self)@.seek_finalized(),
    {
        if self.budget > 0 && self.finalized.is_some() {
            self.open_bucket(true);
        } else {
            self.leave_source();
        }
    }

    fn seek_confirmed(&mut self)
        requires
            old(self)@.confirmed is Some ==> old(self)@.wants(false),
            old(self)@.finalized is Some ==> old(self)@.wants(true),
        ensures
            final(self)@ == old(self)@.seek_confirmed(),
    {
        if self.budget > 0 && self.confirmed.is_some() {
            self.open_bucket(false);
        } else {
            self.seek_finalized();
        }
    }

    fn leave_bucket(&mut self)
        requires
            old(self)@.finalized is Some ==> old(self)@.wants(true),
        ensures
            final(self)@ == old(self)@.leave_bucket(),
    {
        if self.finalized_only {
            self.leave_source();
        } else {
            self.seek_finalized();
        }
    }

    fn seek_finalized_block(&mut self)
        requires
            old(self)@.confirmed is Some ==> old(self)@.wants(false),
            old(self)@.finalized is Some ==> old(self)@.wants(true),
        ensures
            final(self)@ == old(self)@.seek_finalized_block(),
    {
        if self.find_processor(self.source, true, 0).is_some() {
            self.phase = Phase::FinalizedBlock;
        } else {
            self.seek_confirmed();
        }
    }

    fn seek_confirmed_block(&mut self)
        requires
            old(self)@.confirmed is Some ==> old(self)@.wants(false),
            old(self)@.finalized is Some ==> old(self)@.wants(true),
        ensures
            final(self)@ == old(self)@.seek_confirmed_block(),
    {
        if self.find_processor(self.source, false, 0).is_some() {
            self.phase = Phase::ConfirmedBlock;
        } else {
            self.seek_finalized_block();
        }
    }

    /// Last block that the bucket may see.
    fn to_block(&self) -> (to_block: u64)
        requires
            self@.tip_of(self@.finalized_only) is Some,
        ensures
            to_block == self@.to_block(),
    {
        let tip = if self.finalized_only { self.finalized } else { self.confirmed };
        tip.unwrap()
    }

    fn seek_chunk(&mut self)
        requires
            old(self)@.tips_known(),
        ensures
            final(self)@ == old(self)@.seek_chunk(),
    {
        let to_block: u64 = self.to_block();
        proof {
            if self.budget > 0 {
                law_chunk_is_bounded(self@.states, self@.to_block(), self@.budget);
            }
        }
        if self.budget > 0 {
            match plan_chunk(&self.states, to_block, self.budget) {
                Some(chunk) => {
                    self.chunk = chunk;
                    self.fetched = Vec::new();
                    self.phase = Phase::Logs;
                    assert(self@.fetched =~= Seq::empty());
                },
                None => {
                    self.leave_bucket();
                },
            }
        } else if is_behind(&self.states, to_block) {
            self.phase = Phase::TailPause;
        } else {
            self.leave_bucket();
        }
    }

    fn seek_cursor(&mut self, start: usize)
        requires
            start <= old(self)@.processors.len(),
            old(self)@.tips_known(),
        ensures
            final(self)@ == old(self)@.seek_cursor(start as int),
    {
        match self.find_processor(self.source, self.finalized_only, start) {
            Some(processor) => {
                self.phase = Phase::Cursor { processor };
            },
            None => {
                if self.states.len() == 0 {
                    self.leave_bucket();
                } else {
                    self.seek_chunk();
                }
            },
        }
    }

    fn after_member(&mut self, group: usize, member: usize)
        requires
            old(self)@.serving(group as int, member as int),
        ensures
            final(self)@ == old(self)@.after_member(group, member),
    {
        let groups: usize = self.chunk.groups.len();
        let members: usize = self.chunk.groups[group].members.len();
        assert(self@.chunk.groups[group as int] == self.chunk.groups[group as int]@);
        if member + 1 < members {
            self.phase = Phase::Process { group, member: member + 1 };
        } else if group + 1 < groups {
            self.phase = Phase::Process { group: group + 1, member: 0 };
        } else {
            self.budget = self.budget - groups;
            self.phase = Phase::ChunkPause;
        }
    }

    /// Place among the states of a member of a group.
    fn place(&self, group: usize, member: usize) -> (place: usize)
        requires
            self@.serving(group as int, member as int),
        ensures
            place == self@.place(group as int, member as int),
            place < self@.states.len(),
    {
        assert(self@.chunk.groups[group as int] == self.chunk.groups[group as int]@);
        let place: usize = self.chunk.groups[group].members[member];
        assert(self@.group_wf(group as int));
        assert(self@.chunk.groups[group as int].members[member as int] == place);
        place
    }

    fn move_member(&mut self, group: usize, member: usize, next_block: u64)
        requires
            old(self)@.serving(group as int, member as int),
        ensures
            final(self)@ == old(self)@.move_member(group, member, next_block),
    {
        let place: usize = self.place(group, member);
        let state = self.states[place];
        self.states.set(
            place,
            PState {
                idx: state.idx,
                cursor: advance_cursor(state.cursor, next_block),
                topic1: state.topic1,
                topic2: state.topic2,
            },
        );
    }

    /// What is to be done next.
    pub fn action(&self) -> (action: Action)
        requires
            self@.wf(),
        ensures
            action@ == self@.action(),
    {
        match self.phase {
            Phase::ChainId => Action::FetchChainId { source: self.source },
            Phase::ConfirmedBlock => Action::FetchConfirmedBlock { source: self.source },
            Phase::FinalizedBlock => Action::FetchFinalizedBlock { source: self.source },
            Phase::Cursor { processor } => Action::LoadCursor {
                processor,
                chain_id: self.chain_id,
                default_block: self.to_block().saturating_sub(self.event_expiration_blocks),
            },
            Phase::Logs => {
                let group = &self.chunk.groups[self.fetched.len()];
                assert(self@.chunk.groups[self.fetched.len() as int] == group@);
                Action::FetchLogs {
                    source: self.source,
                    from: self.chunk.from,
                    to: self.chunk.to,
                    topic1: group.topic1,
                    topic2: group.topic2,
                    retry_limit: GET_EVENTS_INTERNAL_RETRY_LIMIT,
                }
            },
            Phase::Process { group, member } => {
                let place: usize = self.place(group, member);
                let logs = self.fetched[group].clone();
                assert(logs@ =~= self.fetched[group as int]@);
                Action::ProcessEvents { processor: self.states[place].idx, logs }
            },
            Phase::Store { group, member, next_block } => {
                let place: usize = self.place(group, member);
                Action::StoreCursor {
                    processor: self.states[place].idx,
                    chain_id: self.chain_id,
                    next_block,
                }
            },
            Phase::Stall { .. } => Action::Sleep(Pause { min_ms: 150, max_ms: 350 }),
            Phase::ChunkPause => Action::Sleep(
                Pause { min_ms: INTER_CHUNK_JITTER_MS_MIN, max_ms: INTER_CHUNK_JITTER_MS_MAX },
            ),
            Phase::TailPause => Action::Sleep(Pause { min_ms: 200, max_ms: 600 }),
            Phase::Finished => Action::Return(Ok(())),
            Phase::Failed(failure) => Action::Return(Err(failure)),
        }
    }

    /// Whether the pass waits for such an event: see [`IterationView::awaits`].
    pub fn accepts(&self, event: &Event) -> (accepted: bool)
        requires
            self@.wf(),
        ensures
            accepted == self@.awaits(*event),
    {
        match event {
            Event::ChainId(_) => matches!(self.phase, Phase::ChainId),
            Event::ConfirmedBlock(_) => matches!(self.phase, Phase::ConfirmedBlock),
            Event::FinalizedBlock(_) => matches!(self.phase, Phase::FinalizedBlock),
            Event::Cursor { .. } => matches!(self.phase, Phase::Cursor { .. }),
            Event::Logs(_) => matches!(self.phase, Phase::Logs),
            Event::Processed(processed) => match self.phase {
                Phase::Process { group, member } => {
                    let logs = &self.fetched[group];
                    let processed: usize = *processed;
                    assert(self@.fetched[group as int] == logs@);
                    processed <= logs.len() && (processed == 0 || processed == logs.len()
                        || logs[processed - 1].block_number.is_some())
                },
                _ => false,
            },
            Event::Stored => matches!(self.phase, Phase::Store { .. }),
            Event::Slept => matches!(
                self.phase,
                Phase::Stall { .. } | Phase::ChunkPause | Phase::TailPause
            ),
            Event::Failed => !matches!(
                self.phase,
                Phase::Stall { .. } | Phase::ChunkPause | Phase::TailPause | Phase::Finished | Phase::Failed(
                    _,
                )
            ),
        }
    }

    /// Goes on from what came of the action.
    pub fn step(&mut self, event: Event)
        requires
            old(self)@.wf(),
            old(self)@.awaits(event),
        ensures
            final(self)@ == old(self)@.next(event),
            final(self)@.wf(),
    {
        proof {
            self@.law_next_keeps_wf(event);
        }
        match event {
            Event::ChainId(chain_id) => {
                self.chain_id = chain_id;
                self.seek_confirmed_block();
            },
            Event::ConfirmedBlock(block) => {
                self.confirmed = Some(block);
                self.seek_finalized_block();
            },
            Event::FinalizedBlock(block) => {
                self.finalized = Some(block);
                self.seek_confirmed();
            },
            Event::Cursor { cursor, topic1, topic2 } => {
                if let Phase::Cursor { processor } = self.phase {
                    if cursor <= self.to_block() {
                        self.states.push(PState { idx: processor, cursor, topic1, topic2 });
                    }
                    self.seek_cursor(processor + 1);
                }
            },
            Event::Logs(logs) => {
                let ghost before = self.fetched@;
                let sorted = sort_logs(logs);
                self.fetched.push(sorted);
                assert(log_views(self.fetched@) =~= log_views(before).push(sorted@));
                if self.fetched.len() == self.chunk.groups.len() {
                    self.phase = Phase::Process { group: 0, member: 0 };
                }
            },
            Event::Processed(processed) => {
                if let Phase::Process { group, member } = self.phase {
                    assert(self@.fetched[group as int] == self.fetched[group as int]@);
                    let next_block: u64 = next_block_to_process(
                        processed,
                        &self.fetched[group],
                        self.chunk.from,
                        self.chunk.to,
                    );
                    self.phase = Phase::Store { group, member, next_block };
                }
            },
            Event::Stored => {
                if let Phase::Store { group, member, next_block } = self.phase {
                    let place: usize = self.place(group, member);
                    if next_block <= self.states[place].cursor {
                        self.phase = Phase::Stall { group, member, next_block };
                    } else {
                        proof {
                            self@.lemma_move_member(group, member, next_block);
                        }
                        self.move_member(group, member, next_block);
                        self.after_member(group, member);
                    }
                }
            },
            Event::Slept => {
                match self.phase {
                    Phase::Stall { group, member, next_block } => {
                        proof {
                            self@.lemma_move_member(group, member, next_block);
                        }
                        self.move_member(group, member, next_block);
                        self.after_member(group, member);
                    },
                    Phase::ChunkPause => {
                        self.seek_chunk();
                    },
                    _ => {
                        self.leave_bucket();
                    },
                }
            },
            Event::Failed => {
                let failure = match self.phase {
                    Phase::Cursor { .. } => Failure::Internal,
                    Phase::Store { .. } => Failure::Internal,
                    Phase::Process { .. } => Failure::Processor,
                    _ => Failure::Client,
                };
                self.phase = Phase::Failed(failure);
            },
        }
    }
}

/// A failed request to a node is made again up to five times; nothing else is.
pub proof fn law_only_requests_are_retried(action: ActionView)
    ensures
        MAX_RPC_RETRIES == 5,
        action.is_request() <==> match action {
            ActionView::FetchChainId { .. } => true,
            ActionView::FetchConfirmedBlock { .. } => true,
            ActionView::FetchFinalizedBlock { .. } => true,
            ActionView::FetchLogs { .. } => true,
            _ => false,
        },
{
}

/// The view of an action tells all that the action says.
pub proof fn law_actions_are_viewed(action: Action)
    ensures
        action matches Action::FetchChainId { source } ==> action@ == (ActionView::FetchChainId { source }),
        action matches Action::FetchConfirmedBlock { source } ==> action@ == (
        ActionView::FetchConfirmedBlock { source }),
        action matches Action::FetchFinalizedBlock { source } ==> action@ == (
        ActionView::FetchFinalizedBlock { source }),
        action matches Action::LoadCursor { processor, chain_id, default_block } ==> action@ == (
        ActionView::LoadCursor { processor, chain_id, default_block }),
        action matches Action::FetchLogs { source, from, to, topic1, topic2, retry_limit } ==> action@ == (
        ActionView::FetchLogs { source, from, to, topic1, topic2, retry_limit }),
        action matches Action::ProcessEvents { processor, logs } ==> action@ == (
        ActionView::ProcessEvents { processor, logs: logs@ }),
        action matches Action::StoreCursor { processor, chain_id, next_block } ==> action@ == (
        ActionView::StoreCursor { processor, chain_id, next_block }),
        action matches Action::Sleep(pause) ==> action@ == ActionView::Sleep(pause),
        action matches Action::Return(result) ==> action@ == ActionView::Return(result),
{
}

} // verus!
