//! How successive passes of the watcher fit together.
use vstd::prelude::*;

use crate::chunk::{
    any_due, chunk_end, earliest_due, groups_due, is_due, law_groups_partition, next_chunk, PState,
    MAX_LOG_RANGE_BLOCKS,
};
use crate::guarantees::{after, is_run};
use crate::iteration::{
    first_processor, law_first_processor_is_first, ActionView, Event, IterationView, Phase, ProcessorInfo,
    MAX_RPCS_PER_ITER_PER_SOURCE,
};
use crate::types::EventsSource;

verus! {

/// Ranges of blocks of `source` that were asked for, in this order.
pub open spec fn ranges_fetched(start: IterationView, events: Seq<Event>, source: EventsSource) -> Seq<
    (u64, u64),
>
    decreases events.len(),
{
    if events.len() == 0 {
        Seq::empty()
    } else {
        let earlier = ranges_fetched(start, events.drop_last(), source);
        add_range(earlier, after(start, events.drop_last()).action(), source)
    }
}

/// The ranges with that of the action, if it is a request for logs of `source`.
pub open spec fn add_range(ranges: Seq<(u64, u64)>, action: ActionView, source: EventsSource) -> Seq<
    (u64, u64),
> {
    match action {
        ActionView::FetchLogs { source: asked, from, to, .. } => if asked == source {
            ranges.push((from, to))
        } else {
            ranges
        },
        _ => ranges,
    }
}

/// Blocks that were stored for `processor`, in this order.
pub open spec fn blocks_stored(start: IterationView, events: Seq<Event>, processor: int) -> Seq<u64>
    decreases events.len(),
{
    if events.len() == 0 {
        Seq::empty()
    } else {
        let earlier = blocks_stored(start, events.drop_last(), processor);
        add_block(earlier, after(start, events.drop_last()).action(), events.last(), processor)
    }
}

/// The blocks with that of the action, if it has stored one for `processor`.
pub open spec fn add_block(blocks: Seq<u64>, action: ActionView, event: Event, processor: int) -> Seq<u64> {
    match action {
        ActionView::StoreCursor { processor: of, next_block, .. } => if of == processor && event is Stored {
            blocks.push(next_block)
        } else {
            blocks
        },
        _ => blocks,
    }
}

/// The block that is stored after `blocks` were, where `cursor` was stored before.
pub open spec fn last_stored(blocks: Seq<u64>, cursor: u64) -> u64 {
    if blocks.len() == 0 {
        cursor
    } else {
        blocks.last()
    }
}

/// The event answers the action as it is answered for a processor of `source` for which `cursor` is stored,
/// and that processes all of its logs, where `tip` is the last block that it may see.
pub open spec fn answers_for(
    action: ActionView,
    event: Event,
    processor: int,
    source: EventsSource,
    cursor: u64,
    tip: u64,
) -> bool {
    match action {
        ActionView::FetchConfirmedBlock { source: asked } => asked == source ==> event
            == Event::ConfirmedBlock(tip),
        ActionView::FetchFinalizedBlock { source: asked } => asked == source ==> event
            == Event::FinalizedBlock(tip),
        ActionView::LoadCursor { processor: of, .. } => of == processor ==> (event matches Event::Cursor {
            cursor: loaded,
            ..
        } && loaded == cursor),
        ActionView::ProcessEvents { processor: of, logs } => of == processor ==> (
        event matches Event::Processed(processed) && processed == logs.len()),
        _ => true,
    }
}

/// All events of a pass answer as [`answers_for`] says.
pub open spec fn all_answer(
    start: IterationView,
    events: Seq<Event>,
    processor: int,
    source: EventsSource,
    cursor: u64,
    tip: u64,
) -> bool
    decreases events.len(),
{
    events.len() == 0 || {
        &&& all_answer(start, events.drop_last(), processor, source, cursor, tip)
        &&& answers_for(
            after(start, events.drop_last()).action(),
            events.last(),
            processor,
            source,
            cursor,
            tip,
        )
    }
}

/// The processor is the only one of its source.
pub open spec fn is_alone(processors: Seq<ProcessorInfo>, processor: int) -> bool {
    &&& 0 <= processor < processors.len()
    &&& forall|q: int|
        0 <= q < processors.len() && (#[trigger] processors[q]).source == processors[processor].source
            ==> q == processor
}

/// Blocks that one pass fetches for a processor at most.
pub open spec fn blocks_per_pass() -> int {
    MAX_RPCS_PER_ITER_PER_SOURCE as int * MAX_LOG_RANGE_BLOCKS as int
}

/// The block that a pass leaves stored, where `cursor` was stored before: as far as its requests take it, but
/// no further than right after the tip.
pub open spec fn reached(cursor: u64, tip: u64) -> int {
    if cursor > tip {
        cursor as int
    } else if cursor + blocks_per_pass() <= tip + 1 {
        cursor + blocks_per_pass()
    } else {
        tip + 1
    }
}

/// The ranges are contiguous: the first one begins at `begin`, each other one right after the end of the one
/// before, and the last one ends right before `end`.
pub open spec fn tile(ranges: Seq<(u64, u64)>, begin: int, end: int) -> bool {
    &&& ranges.len() == 0 ==> begin == end
    &&& ranges.len() > 0 ==> ranges[0].0 == begin && ranges.last().1 + 1 == end
    &&& forall|i: int| 0 <= i < ranges.len() ==> (#[trigger] ranges[i]).0 <= ranges[i].1
    &&& forall|i: int, j: int|
        0 <= i && j == i + 1 && j < ranges.len() ==> (#[trigger] ranges[j]).0 == (#[trigger] ranges[i]).1
            + 1
}

proof fn lemma_tile_push(ranges: Seq<(u64, u64)>, begin: int, from: u64, to: u64)
    requires
        tile(ranges, begin, from as int),
        from <= to,
    ensures
        tile(ranges.push((from, to)), begin, to + 1),
{
}

proof fn lemma_tile_concat(first: Seq<(u64, u64)>, second: Seq<(u64, u64)>, begin: int, mid: int, end: int)
    requires
        tile(first, begin, mid),
        tile(second, mid, end),
    ensures
        tile(first + second, begin, end),
{
}

/// The block lies in the `i`-th range.
pub open spec fn lies_in(ranges: Seq<(u64, u64)>, i: int, block: int) -> bool {
    0 <= i < ranges.len() && ranges[i].0 <= block <= ranges[i].1
}

/// Contiguous ranges hold every block from `begin` up to `end`, in exactly one range each, and no other
/// block.
pub proof fn law_tiles_hold_each_block_once(ranges: Seq<(u64, u64)>, begin: int, end: int, block: int)
    requires
        tile(ranges, begin, end),
    ensures
        begin <= end,
        begin <= block < end <==> exists|i: int| lies_in(ranges, i, block),
        forall|i: int, j: int|
            #[trigger] lies_in(ranges, i, block) && #[trigger] lies_in(ranges, j, block) ==> i == j,
    decreases ranges.len(),
{
    if ranges.len() > 0 {
        let init = ranges.drop_last();
        let last = ranges.len() - 1;
        let mid = ranges[last].0 as int;
        law_tiles_hold_each_block_once(init, begin, mid, block);
        assert forall|i: int| i != last implies #[trigger] lies_in(ranges, i, block) == lies_in(
            init,
            i,
            block,
        ) by {}
        if begin <= block < mid {
            let i = choose|i: int| lies_in(init, i, block);
            assert(lies_in(ranges, i, block));
        }
        assert(lies_in(ranges, last, block) == (mid <= block < end));
    }
}

/// A processor that is alone at its source, the block that is stored for it, and the last block that it may
/// see.
struct Lone {
    processors: Seq<ProcessorInfo>,
    processor: int,
    cursor: u64,
    tip: u64,
}

impl Lone {
    spec fn wf(self) -> bool {
        &&& is_alone(self.processors, self.processor)
        &&& self.processors.len() <= usize::MAX
        &&& self.tip < u64::MAX
    }

    spec fn source(self) -> EventsSource {
        self.processors[self.processor].source
    }

    spec fn only_finalized(self) -> bool {
        self.processors[self.processor].only_finalized
    }

    /// Where the cursor stands after `used` requests.
    spec fn cursor_after(self, used: int) -> int {
        let far = self.cursor + MAX_LOG_RANGE_BLOCKS * used;
        if far <= self.tip + 1 {
            far
        } else {
            self.tip + 1
        }
    }

    /// The processor's bucket is being served, and its cursor stands where the requests have taken it.
    spec fn in_service(self, s: IterationView, blocks: Seq<u64>) -> bool {
        &&& s.finalized_only == self.only_finalized()
        &&& s.tip_of(self.only_finalized()) == Some(self.tip)
        &&& s.states.len() == 1
        &&& s.states[0].idx == self.processor
        &&& self.cursor <= self.tip
        &&& s.states[0].cursor == self.cursor_after(MAX_RPCS_PER_ITER_PER_SOURCE - s.budget)
        &&& last_stored(blocks, self.cursor) == s.states[0].cursor
    }

    /// A chunk is being served, for the processor only.
    spec fn in_chunk(self, s: IterationView, blocks: Seq<u64>) -> bool {
        &&& self.in_service(s, blocks)
        &&& s.states[0].cursor <= self.tip
        &&& s.chunk.from == s.states[0].cursor
        &&& s.chunk.to == chunk_end(s.chunk.from, self.tip)
        &&& s.chunk.groups.len() == 1
        &&& s.chunk.groups[0].members == seq![0int]
    }

    /// The processor's source has been served.
    spec fn done(self, ranges: Seq<(u64, u64)>, blocks: Seq<u64>) -> bool {
        &&& last_stored(blocks, self.cursor) == reached(self.cursor, self.tip)
        &&& tile(ranges, self.cursor as int, reached(self.cursor, self.tip))
        &&& self.cursor > self.tip ==> ranges.len() == 0 && blocks.len() == 0
    }

    /// What holds of the processor at all times of a pass.
    spec fn inv(self, s: IterationView, ranges: Seq<(u64, u64)>, blocks: Seq<u64>) -> bool {
        &&& s.wf()
        &&& s.processors == self.processors
        &&& if s.phase is Failed {
            true
        } else if s.phase is Finished || (self.source() is L1 && s.source is SL) {
            self.done(ranges, blocks)
        } else if s.source != self.source() {
            ranges.len() == 0 && blocks.len() == 0
        } else {
            match s.phase {
                Phase::ChainId | Phase::ConfirmedBlock | Phase::FinalizedBlock => {
                    &&& ranges.len() == 0 && blocks.len() == 0
                    &&& s.confirmed is Some ==> s.confirmed == Some(self.tip)
                },
                Phase::Cursor { processor } => {
                    &&& ranges.len() == 0 && blocks.len() == 0
                    &&& processor == self.processor
                    &&& s.finalized_only == self.only_finalized()
                    &&& s.tip_of(self.only_finalized()) == Some(self.tip)
                    &&& s.states.len() == 0
                    &&& s.budget == MAX_RPCS_PER_ITER_PER_SOURCE
                },
                Phase::Logs => {
                    &&& self.in_chunk(s, blocks)
                    &&& s.fetched.len() == 0
                    &&& tile(ranges, self.cursor as int, s.states[0].cursor as int)
                },
                Phase::Process { group, member } => {
                    &&& self.in_chunk(s, blocks)
                    &&& group == 0 && member == 0
                    &&& tile(ranges, self.cursor as int, s.chunk.to + 1)
                },
                Phase::Store { group, member, next_block } => {
                    &&& self.in_chunk(s, blocks)
                    &&& group == 0 && member == 0
                    &&& next_block == s.chunk.to + 1
                    &&& tile(ranges, self.cursor as int, s.chunk.to + 1)
                },
                Phase::ChunkPause | Phase::TailPause => {
                    &&& self.in_service(s, blocks)
                    &&& tile(ranges, self.cursor as int, s.states[0].cursor as int)
                },
                _ => false,
            }
        }
    }

    /// The source has no processor of the other finality.
    proof fn lemma_first(self, only_finalized: bool)
        requires
            self.wf(),
        ensures
            first_processor(self.processors, self.source(), only_finalized, 0) == if only_finalized
                == self.only_finalized() {
                Some(self.processor as usize)
            } else {
                None
            },
            first_processor(self.processors, self.source(), only_finalized, self.processor + 1) is None,
    {
        law_first_processor_is_first(self.processors, self.source(), only_finalized, 0);
        law_first_processor_is_first(
            self.processors,
            self.source(),
            only_finalized,
            self.processor + 1,
        );
    }

    /// Once its bucket is left, the processor's source has been served.
    proof fn lemma_leave(self, s: IterationView, ranges: Seq<(u64, u64)>, blocks: Seq<u64>)
        requires
            self.wf(),
            s.processors == self.processors,
            s.source == self.source(),
            s.finalized is Some <==> s.wants(true),
            s.finalized_only == self.only_finalized(),
            self.done(ranges, blocks),
            s.leave_bucket().wf(),
        ensures
            self.inv(s.leave_bucket(), ranges, blocks),
    {
        self.lemma_first(true);
        self.lemma_first(false);
    }
}

/// Where one state only is due, the chunk starts at its cursor and serves it alone.
proof fn lemma_lone_chunk(states: Seq<PState>, tip: u64, budget: nat)
    requires
        states.len() == 1,
        states[0].cursor <= tip,
        budget > 0,
    ensures
        any_due(states, tip),
        next_chunk(states, tip, budget) matches Some(chunk) && {
            &&& chunk.from == states[0].cursor
            &&& chunk.to == chunk_end(chunk.from, tip)
            &&& chunk.groups.len() == 1
            &&& chunk.groups[0].members == seq![0int]
        },
{
    assert(is_due(states, tip, 0));
    reveal_with_fuel(earliest_due, 2);
    let from = states[0].cursor;
    let to = chunk_end(from, tip);
    let groups = groups_due(states, to);
    law_groups_partition(states, to);
    assert(is_due(states, to, 0));
    assert forall|g: int| 0 <= g < groups.len() implies {
        &&& (#[trigger] groups[g]).members == seq![0int]
        &&& groups[g].topic1 == states[0].topic1
        &&& groups[g].topic2 == states[0].topic2
    } by {}
}

impl Lone {
    /// Serving the other source asks for nothing of the processor's own, and stores nothing for it.
    proof fn lemma_other_source(
        self,
        s: IterationView,
        event: Event,
        ranges: Seq<(u64, u64)>,
        blocks: Seq<u64>,
    )
        requires
            self.wf(),
            self.inv(s, ranges, blocks),
            s.awaits(event),
            s.source != self.source(),
        ensures
            self.inv(
                s.next(event),
                add_range(ranges, s.action(), self.source()),
                add_block(blocks, s.action(), event, self.processor),
            ),
    {
        s.law_next_keeps_wf(event);
        self.lemma_first(true);
        self.lemma_first(false);
        if let Phase::Store { group, .. } = s.phase {
            assert(s.group_wf(group as int));
        }
    }

    /// The bucket goes on to its next chunk, or is left.
    proof fn lemma_seek_chunk(self, s: IterationView, ranges: Seq<(u64, u64)>, blocks: Seq<u64>)
        requires
            self.wf(),
            s.processors == self.processors,
            s.source == self.source(),
            s.finalized is Some <==> s.wants(true),
            s.budget <= MAX_RPCS_PER_ITER_PER_SOURCE,
            self.in_service(s, blocks),
            tile(ranges, self.cursor as int, s.states[0].cursor as int),
            s.seek_chunk().wf(),
        ensures
            self.inv(s.seek_chunk(), ranges, blocks),
    {
        if s.states[0].cursor <= self.tip {
            if s.budget > 0 {
                lemma_lone_chunk(s.states, self.tip, s.budget);
            }
        } else {
            self.lemma_leave(s, ranges, blocks);
        }
    }

    /// Serving the processor's source takes it on chunk by chunk.
    proof fn lemma_own_source(
        self,
        s: IterationView,
        event: Event,
        ranges: Seq<(u64, u64)>,
        blocks: Seq<u64>,
    )
        requires
            self.wf(),
            self.inv(s, ranges, blocks),
            s.awaits(event),
            s.source == self.source(),
            answers_for(s.action(), event, self.processor, self.source(), self.cursor, self.tip),
        ensures
            self.inv(
                s.next(event),
                add_range(ranges, s.action(), self.source()),
                add_block(blocks, s.action(), event, self.processor),
            ),
    {
        s.law_next_keeps_wf(event);
        self.lemma_first(true);
        self.lemma_first(false);
        match event {
            Event::ChainId(_) => {},
            Event::ConfirmedBlock(_) => {},
            Event::FinalizedBlock(_) => {},
            Event::Cursor { cursor, topic1, topic2 } => {
                let processor = s.phase->Cursor_processor;
                let mid = s.enlist(PState { idx: processor, cursor, topic1, topic2 });
                if cursor <= self.tip {
                    self.lemma_seek_chunk(mid, ranges, blocks);
                } else {
                    self.lemma_leave(mid, ranges, blocks);
                }
            },
            Event::Logs(_) => {
                lemma_tile_push(ranges, self.cursor as int, s.chunk.from, s.chunk.to);
            },
            Event::Processed(_) => {},
            Event::Stored => {},
            Event::Slept => {
                if s.phase is ChunkPause {
                    self.lemma_seek_chunk(s, ranges, blocks);
                } else {
                    self.lemma_leave(s, ranges, blocks);
                }
            },
            Event::Failed => {},
        }
    }

    /// What holds of the processor still holds after an event.
    proof fn lemma_step(
        self,
        s: IterationView,
        event: Event,
        ranges: Seq<(u64, u64)>,
        blocks: Seq<u64>,
    )
        requires
            self.wf(),
            self.inv(s, ranges, blocks),
            s.awaits(event),
            answers_for(s.action(), event, self.processor, self.source(), self.cursor, self.tip),
        ensures
            self.inv(
                s.next(event),
                add_range(ranges, s.action(), self.source()),
                add_block(blocks, s.action(), event, self.processor),
            ),
    {
        if s.source != self.source() {
            self.lemma_other_source(s, event, ranges, blocks);
        } else {
            self.lemma_own_source(s, event, ranges, blocks);
        }
    }

    proof fn lemma_run(self, event_expiration_blocks: u64, events: Seq<Event>)
        requires
            self.wf(),
            is_run(IterationView::begin(self.processors, event_expiration_blocks), events),
            all_answer(
                IterationView::begin(self.processors, event_expiration_blocks),
                events,
                self.processor,
                self.source(),
                self.cursor,
                self.tip,
            ),
        ensures
            ({
                let start = IterationView::begin(self.processors, event_expiration_blocks);
                self.inv(
                    after(start, events),
                    ranges_fetched(start, events, self.source()),
                    blocks_stored(start, events, self.processor),
                )
            }),
        decreases events.len(),
    {
        reveal(after);
        let start = IterationView::begin(self.processors, event_expiration_blocks);
        IterationView::law_begin_is_wf(self.processors, event_expiration_blocks);
        self.lemma_first(true);
        self.lemma_first(false);
        if events.len() > 0 {
            let init = events.drop_last();
            self.lemma_run(event_expiration_blocks, init);
            self.lemma_step(
                after(start, init),
                events.last(),
                ranges_fetched(start, init, self.source()),
                blocks_stored(start, init, self.processor),
            );
        }
    }
}

/// A pass that comes to its end without a failure, seen by one processor: `tip` is the last block that it
/// may see, and `events` is what came of the actions.
pub struct PassView {
    pub tip: u64,
    pub events: Seq<Event>,
}

/// The processor, for which `cursor` is stored, processes all of its logs in the pass, and the pass is done.
pub open spec fn is_full_pass(
    processors: Seq<ProcessorInfo>,
    event_expiration_blocks: u64,
    processor: int,
    cursor: u64,
    pass: PassView,
) -> bool {
    let start = IterationView::begin(processors, event_expiration_blocks);
    &&& pass.tip < u64::MAX
    &&& is_run(start, pass.events)
    &&& all_answer(
        start,
        pass.events,
        processor,
        processors[processor].source,
        cursor,
        pass.tip,
    )
    &&& after(start, pass.events).action() == ActionView::Return(Ok(()))
}

/// A pass takes a processor that is alone at its source and processes all of its logs from the block that is
/// stored for it as far as the requests of a pass go, or else right past the tip. What it has fetched by then
/// is every block in between, in contiguous ranges. A processor that is past the tip already has nothing
/// fetched and nothing stored for it.
pub proof fn law_pass_fetches_up_to_what_it_stores(
    processors: Seq<ProcessorInfo>,
    event_expiration_blocks: u64,
    processor: int,
    cursor: u64,
    pass: PassView,
)
    requires
        processors.len() <= usize::MAX,
        is_alone(processors, processor),
        is_full_pass(processors, event_expiration_blocks, processor, cursor, pass),
    ensures
        ({
            let start = IterationView::begin(processors, event_expiration_blocks);
            let ranges = ranges_fetched(start, pass.events, processors[processor].source);
            let blocks = blocks_stored(start, pass.events, processor);
            &&& last_stored(blocks, cursor) == reached(cursor, pass.tip)
            &&& tile(ranges, cursor as int, reached(cursor, pass.tip))
            &&& cursor > pass.tip ==> ranges.len() == 0 && blocks.len() == 0
        }),
{
    let lone = Lone { processors, processor, cursor, tip: pass.tip };
    lone.lemma_run(event_expiration_blocks, pass.events);
}

/// The block that is stored for the processor after the passes, where `cursor` was stored before.
pub open spec fn stored_after(
    processors: Seq<ProcessorInfo>,
    event_expiration_blocks: u64,
    processor: int,
    cursor: u64,
    passes: Seq<PassView>,
) -> u64
    decreases passes.len(),
{
    if passes.len() == 0 {
        cursor
    } else {
        let start = IterationView::begin(processors, event_expiration_blocks);
        last_stored(
            blocks_stored(start, passes.last().events, processor),
            stored_after(processors, event_expiration_blocks, processor, cursor, passes.drop_last()),
        )
    }
}

/// Ranges of blocks of `source` that the passes have asked for, in this order.
pub open spec fn all_ranges(
    processors: Seq<ProcessorInfo>,
    event_expiration_blocks: u64,
    source: EventsSource,
    passes: Seq<PassView>,
) -> Seq<(u64, u64)>
    decreases passes.len(),
{
    if passes.len() == 0 {
        Seq::empty()
    } else {
        let start = IterationView::begin(processors, event_expiration_blocks);
        all_ranges(processors, event_expiration_blocks, source, passes.drop_last()) + ranges_fetched(
            start,
            passes.last().events,
            source,
        )
    }
}

/// Each of the passes finds stored for the processor what the ones before have left.
pub open spec fn are_full_passes(
    processors: Seq<ProcessorInfo>,
    event_expiration_blocks: u64,
    processor: int,
    cursor: u64,
    passes: Seq<PassView>,
) -> bool
    decreases passes.len(),
{
    passes.len() == 0 || {
        let init = passes.drop_last();
        &&& are_full_passes(processors, event_expiration_blocks, processor, cursor, init)
        &&& is_full_pass(
            processors,
            event_expiration_blocks,
            processor,
            stored_after(processors, event_expiration_blocks, processor, cursor, init),
            passes.last(),
        )
    }
}

/// Successive passes leave no gap and fetch nothing twice: for a processor that is alone at its source and
/// processes all of its logs, the ranges of all requests of all passes are contiguous, from the block that
/// was stored at first to the one before what is stored at last.
pub proof fn law_passes_are_contiguous(
    processors: Seq<ProcessorInfo>,
    event_expiration_blocks: u64,
    processor: int,
    cursor: u64,
    passes: Seq<PassView>,
)
    requires
        processors.len() <= usize::MAX,
        is_alone(processors, processor),
        are_full_passes(processors, event_expiration_blocks, processor, cursor, passes),
    ensures
        tile(
            all_ranges(processors, event_expiration_blocks, processors[processor].source, passes),
            cursor as int,
            stored_after(processors, event_expiration_blocks, processor, cursor, passes) as int,
        ),
    decreases passes.len(),
{
    if passes.len() > 0 {
        let init = passes.drop_last();
        let source = processors[processor].source;
        let mid = stored_after(processors, event_expiration_blocks, processor, cursor, init);
        let start = IterationView::begin(processors, event_expiration_blocks);
        law_passes_are_contiguous(processors, event_expiration_blocks, processor, cursor, init);
        law_pass_fetches_up_to_what_it_stores(
            processors,
            event_expiration_blocks,
            processor,
            mid,
            passes.last(),
        );
        lemma_tile_concat(
            all_ranges(processors, event_expiration_blocks, source, init),
            ranges_fetched(start, passes.last().events, source),
            cursor as int,
            mid as int,
            reached(mid, passes.last().tip),
        );
    }
}

/// From the block that was stored at first to the one before what is stored at last, the passes fetch every
/// block, each exactly once, and they fetch no other block.
pub proof fn law_passes_fetch_each_block_once(
    processors: Seq<ProcessorInfo>,
    event_expiration_blocks: u64,
    processor: int,
    cursor: u64,
    passes: Seq<PassView>,
    block: int,
)
    requires
        processors.len() <= usize::MAX,
        is_alone(processors, processor),
        are_full_passes(processors, event_expiration_blocks, processor, cursor, passes),
    ensures
        ({
            let stored = stored_after(processors, event_expiration_blocks, processor, cursor, passes);
            let ranges = all_ranges(
                processors,
                event_expiration_blocks,
                processors[processor].source,
                passes,
            );
            &&& cursor <= block < stored <==> exists|i: int| lies_in(ranges, i, block)
            &&& forall|i: int, j: int|
                #[trigger] lies_in(ranges, i, block) && #[trigger] lies_in(ranges, j, block) ==> i == j
        }),
{
    law_passes_are_contiguous(processors, event_expiration_blocks, processor, cursor, passes);
    law_tiles_hold_each_block_once(
        all_ranges(processors, event_expiration_blocks, processors[processor].source, passes),
        cursor as int,
        stored_after(processors, event_expiration_blocks, processor, cursor, passes) as int,
        block,
    );
}

/// While the tip stays where it is, every pass takes such a processor on by as many blocks as the requests of
/// a pass hold, until it is right past the tip; there it stays.
pub proof fn law_passes_reach_the_tip(
    processors: Seq<ProcessorInfo>,
    event_expiration_blocks: u64,
    processor: int,
    cursor: u64,
    passes: Seq<PassView>,
    tip: u64,
)
    requires
        processors.len() <= usize::MAX,
        is_alone(processors, processor),
        are_full_passes(processors, event_expiration_blocks, processor, cursor, passes),
        forall|k: int| 0 <= k < passes.len() ==> (#[trigger] passes[k]).tip == tip,
        cursor <= tip,
    ensures
        ({
            let stored = stored_after(processors, event_expiration_blocks, processor, cursor, passes);
            let far = cursor + blocks_per_pass() * passes.len();
            stored == if far <= tip + 1 {
                far
            } else {
                tip + 1
            }
        }),
    decreases passes.len(),
{
    if passes.len() > 0 {
        let init = passes.drop_last();
        law_passes_reach_the_tip(processors, event_expiration_blocks, processor, cursor, init, tip);
        law_pass_fetches_up_to_what_it_stores(
            processors,
            event_expiration_blocks,
            processor,
            stored_after(processors, event_expiration_blocks, processor, cursor, init),
            passes.last(),
        );
        assert(blocks_per_pass() * passes.len() == blocks_per_pass() * init.len() + blocks_per_pass())
            by (nonlinear_arith)
            requires
                passes.len() == init.len() + 1,
        ;
    }
}

} // verus!
