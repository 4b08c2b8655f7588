//! What a pass asks for, told from what it has asked for before and from what came of that.
use vstd::prelude::*;

use crate::chunk::{
    any_due, groups_due, is_ascending, is_due, law_earliest_is_least, law_groups_partition, moved_on, next_chunk,
    PState,
};
use crate::guarantees::{after, is_run, law_members_are_served_once, lemma_members_bounded};
use crate::iteration::{
    first_processor, law_first_processor_is_first, ActionView, Event, Failure, IterationView, Phase, ProcessorInfo,
};
use crate::logs::{block_of, in_order, law_sorted_logs_ascend, no_later, ordered_places_of, Log};
use crate::pause::Pause;
use crate::types::{EventsSource, H256};

verus! {

/// A pass up to some point: the processors that it serves, and what came of its actions so far.
#[verifier::ext_equal]
pub struct History {
    pub processors: Seq<ProcessorInfo>,
    pub event_expiration_blocks: u64,
    pub events: Seq<Event>,
}

/// A request for logs that was answered.
#[verifier::ext_equal]
pub struct Answer {
    pub source: EventsSource,
    pub from: u64,
    pub to: u64,
    pub topic1: Option<H256>,
    pub topic2: Option<H256>,
    /// The logs as they came.
    pub logs: Seq<Log>,
}

/// The processor is one of those that are shown the confirmed, or the finalized, blocks of `source`.
pub open spec fn belongs(
    processors: Seq<ProcessorInfo>,
    processor: int,
    source: EventsSource,
    finalized: bool,
) -> bool {
    &&& 0 <= processor < processors.len()
    &&& processors[processor].source == source
    &&& processors[processor].only_finalized == finalized
}

/// There are such processors.
pub open spec fn any_belongs(processors: Seq<ProcessorInfo>, source: EventsSource, finalized: bool) -> bool {
    exists|p: int| belongs(processors, p, source, finalized)
}

/// The first such processor from `start` on.
pub open spec fn is_first(
    processors: Seq<ProcessorInfo>,
    processor: int,
    source: EventsSource,
    finalized: bool,
    start: int,
) -> bool {
    &&& start <= processor
    &&& belongs(processors, processor, source, finalized)
    &&& forall|p: int| start <= p < processor ==> !belongs(processors, p, source, finalized)
}

impl History {
    /// The state that the pass is in.
    pub open spec fn state(self) -> IterationView {
        after(IterationView::begin(self.processors, self.event_expiration_blocks), self.events)
    }

    /// Each of the events was waited for when it came.
    pub open spec fn is_valid(self) -> bool {
        &&& self.processors.len() <= usize::MAX
        &&& is_run(IterationView::begin(self.processors, self.event_expiration_blocks), self.events)
    }

    /// What the pass asks for now.
    pub open spec fn action(self) -> ActionView {
        self.state().action()
    }

    /// The pass before its last event.
    pub open spec fn earlier(self) -> History {
        History { events: self.events.drop_last(), ..self }
    }

    /// The last event came, and it is the answer to `action`.
    pub open spec fn has_answered(self, action: ActionView) -> bool {
        self.events.len() > 0 && self.earlier().action() == action
    }

    /// The id that the chain of `source` has, as its node has said.
    pub open spec fn chain_of(self, source: EventsSource) -> Option<u64>
        decreases self.events.len(),
    {
        if self.events.len() == 0 {
            None
        } else if self.has_answered(ActionView::FetchChainId { source }) && self.events.last() is ChainId {
            Some(self.events.last()->ChainId_0)
        } else {
            self.earlier().chain_of(source)
        }
    }

    /// The last confirmed block of `source`, or its last finalized one, as its node has said.
    pub open spec fn tip_of(self, source: EventsSource, finalized: bool) -> Option<u64>
        decreases self.events.len(),
    {
        if self.events.len() == 0 {
            None
        } else if finalized && self.has_answered(ActionView::FetchFinalizedBlock { source })
            && self.events.last() is FinalizedBlock {
            Some(self.events.last()->FinalizedBlock_0)
        } else if !finalized && self.has_answered(ActionView::FetchConfirmedBlock { source })
            && self.events.last() is ConfirmedBlock {
            Some(self.events.last()->ConfirmedBlock_0)
        } else {
            self.earlier().tip_of(source, finalized)
        }
    }

    /// The last event says which block is stored for `processor`, and which topics its events have.
    pub open spec fn loads(self, processor: int) -> bool {
        &&& self.events.len() > 0
        &&& self.earlier().action() matches ActionView::LoadCursor { processor: of, .. } && of == processor
        &&& self.events.last() is Cursor
    }

    /// The last event says that a block was stored for `processor`.
    pub open spec fn stores(self, processor: int) -> bool {
        &&& self.events.len() > 0
        &&& self.earlier().action() matches ActionView::StoreCursor { processor: of, .. } && of == processor
        &&& self.events.last() is Stored
    }

    /// The next block that `processor` has yet to see, where it was loaded. A block that is stored for it
    /// takes it there, but by at least a block on from where it was.
    pub open spec fn position(self, processor: int) -> Option<int>
        decreases self.events.len(),
    {
        if self.events.len() == 0 {
            None
        } else if self.loads(processor) {
            Some(self.events.last()->Cursor_cursor as int)
        } else if self.stores(processor) {
            let before = self.earlier().position(processor)->0;
            let stored = self.earlier().action()->StoreCursor_next_block;
            Some(
                if stored > before {
                    stored as int
                } else if before < u64::MAX {
                    before + 1
                } else {
                    before
                },
            )
        } else {
            self.earlier().position(processor)
        }
    }

    /// The topics of the events of `processor`, where it was loaded.
    pub open spec fn topics_of(self, processor: int) -> Option<(Option<H256>, Option<H256>)>
        decreases self.events.len(),
    {
        if self.events.len() == 0 {
            None
        } else if self.loads(processor) {
            Some((self.events.last()->Cursor_topic1, self.events.last()->Cursor_topic2))
        } else {
            self.earlier().topics_of(processor)
        }
    }

    /// The processor that was loaded last.
    pub open spec fn loaded_last(self) -> Option<int>
        decreases self.events.len(),
    {
        if self.events.len() == 0 {
            None
        } else if self.earlier().action() is LoadCursor && self.events.last() is Cursor {
            Some(self.earlier().action()->LoadCursor_processor as int)
        } else {
            self.earlier().loaded_last()
        }
    }

    /// How many requests for logs of `source` were made.
    pub open spec fn requests_of(self, source: EventsSource) -> nat
        decreases self.events.len(),
    {
        if self.events.len() == 0 {
            0
        } else if self.earlier().action() is FetchLogs && self.earlier().action()->FetchLogs_source
            == source {
            self.earlier().requests_of(source) + 1
        } else {
            self.earlier().requests_of(source)
        }
    }

    /// The last event came of a request for logs.
    pub open spec fn after_request(self) -> bool {
        self.events.len() > 0 && self.earlier().action() is FetchLogs
    }

    /// The last requests for logs that were made one right after the other, with their answers.
    pub open spec fn answers(self) -> Seq<Answer>
        decreases self.events.len(),
    {
        if self.events.len() == 0 {
            Seq::empty()
        } else if self.after_request() && self.events.last() is Logs {
            let request = self.earlier().action();
            let answer = Answer {
                source: request->FetchLogs_source,
                from: request->FetchLogs_from,
                to: request->FetchLogs_to,
                topic1: request->FetchLogs_topic1,
                topic2: request->FetchLogs_topic2,
                logs: self.events.last()->Logs_0@,
            };
            if self.earlier().after_request() {
                self.earlier().answers().push(answer)
            } else {
                seq![answer]
            }
        } else {
            self.earlier().answers()
        }
    }

    /// The processors that were handed logs since the last request for logs, in this order.
    pub open spec fn served(self) -> Seq<int>
        decreases self.events.len(),
    {
        if self.events.len() == 0 || self.after_request() {
            Seq::empty()
        } else if self.earlier().action() is ProcessEvents {
            self.earlier().served().push(self.earlier().action()->ProcessEvents_processor as int)
        } else {
            self.earlier().served()
        }
    }

    /// The processor has seen all that it may see.
    pub open spec fn is_past_tip(self, processor: int) -> bool {
        let info = self.processors[processor];
        &&& self.position(processor) is Some
        &&& self.tip_of(info.source, info.only_finalized) is Some
        &&& self.position(processor)->0 > self.tip_of(info.source, info.only_finalized)->0
    }

    /// The request is for the topics of the processor.
    pub open spec fn is_for(self, answer: Answer, processor: int) -> bool {
        self.topics_of(processor) == Some((answer.topic1, answer.topic2))
    }

    /// One of the last requests is for the topics of the processor.
    pub open spec fn asked_for(self, processor: int) -> bool {
        exists|g: int| 0 <= g < self.answers().len() && self.is_for(#[trigger] self.answers()[g], processor)
    }
}

/// The logs are those of the answer, in the order of their blocks and of their indices in the block; and where
/// that leaves it open, in the order in which they came.
pub open spec fn are_sorted(answer: Seq<Log>, logs: Seq<Log>) -> bool {
    &&& exists|places: Seq<int>| #[trigger] are_taken_from(answer, logs, places)
    &&& logs.len() == answer.len()
    &&& logs.to_multiset() == answer.to_multiset()
    &&& forall|i: int, j: int| 0 <= i < j < logs.len() ==> no_later(#[trigger] logs[i], #[trigger] logs[j])
}

/// The logs stand at these places of the answer, of two that come no later than one another the one at the
/// earlier place first.
pub open spec fn are_taken_from(answer: Seq<Log>, logs: Seq<Log>, places: Seq<int>) -> bool {
    &&& places.len() == logs.len()
    &&& places.no_duplicates()
    &&& forall|i: int|
        0 <= i < logs.len() ==> 0 <= (#[trigger] places[i]) < answer.len() && logs[i] == answer[places[i]]
    &&& forall|i: int, j: int|
        0 <= i < j < logs.len() && no_later(logs[j], logs[i]) ==> (#[trigger] places[i]) < (
        #[trigger] places[j])
}

/// A turn of a chunk comes before another one.
spec fn turn_before(g: int, m: int, group: int, member: int) -> bool {
    g < group || g == group && m < member
}

/// The group of the chunk has such a member.
spec fn is_member(s: IterationView, g: int, m: int) -> bool {
    0 <= g < s.chunk.groups.len() && 0 <= m < s.chunk.groups[g].members.len()
}

/// The state at place `i` takes part in the chunk.
spec fn is_covered(s: IterationView, i: int) -> bool {
    exists|g: int, m: int| is_member(s, g, m) && #[trigger] s.place(g, m) == i
}

/// No request of the chunk is for the topics of the state at place `i`.
spec fn is_unasked(s: IterationView, i: int) -> bool {
    forall|g: int|
        0 <= g < s.chunk.groups.len() ==> (#[trigger] s.chunk.groups[g]).topic1 != s.states[i].topic1
            || s.chunk.groups[g].topic2 != s.states[i].topic2
}

/// Where the state at place `i` stands.
spec fn standing(s: IterationView, i: int) -> int {
    match s.phase {
        Phase::Stall { group, member, next_block } => if s.place(group as int, member as int) == i {
            moved_on(s.states[i].cursor, next_block) as int
        } else {
            s.states[i].cursor as int
        },
        _ => s.states[i].cursor as int,
    }
}

spec fn requests_in_chunk(s: IterationView) -> int {
    match s.phase {
        Phase::Logs => s.fetched.len() as int,
        Phase::Process { .. } => s.fetched.len() as int,
        Phase::Store { .. } => s.fetched.len() as int,
        Phase::Stall { .. } => s.fetched.len() as int,
        _ => 0,
    }
}

impl History {
    spec fn none_loaded(self, source: EventsSource, finalized: bool) -> bool {
        forall|p: int| #[trigger]
            belongs(self.processors, p, source, finalized) ==> self.position(p) is None
    }

    spec fn all_loaded(self, source: EventsSource, finalized: bool) -> bool {
        forall|p: int| #[trigger]
            belongs(self.processors, p, source, finalized) ==> self.position(p) is Some
    }

    spec fn all_past_tip(self, source: EventsSource, finalized: bool) -> bool {
        forall|p: int| #[trigger]
            belongs(self.processors, p, source, finalized) ==> self.is_past_tip(p)
    }

    spec fn is_untouched(self, source: EventsSource) -> bool {
        &&& self.chain_of(source) is None
        &&& self.tip_of(source, false) is None
        &&& self.tip_of(source, true) is None
        &&& self.requests_of(source) == 0
        &&& self.none_loaded(source, false)
        &&& self.none_loaded(source, true)
    }

    /// The source has been served, as far as the requests went.
    pub open spec fn is_done(self, source: EventsSource) -> bool {
        &&& forall|p: int| #[trigger]
            belongs(self.processors, p, source, false) ==> self.position(p) is Some && (
            self.is_past_tip(p) || self.requests_of(source) == 9)
        &&& forall|p: int| #[trigger]
            belongs(self.processors, p, source, true) ==> self.is_past_tip(p) || self.requests_of(source)
                == 9
        &&& forall|p: int, q: int| #[trigger]
            belongs(self.processors, p, source, true) && #[trigger] belongs(
                self.processors,
                q,
                source,
                true,
            ) ==> (self.position(p) is Some <==> self.position(q) is Some)
    }

    spec fn fits_bucket(self, s: IterationView) -> bool {
        &&& !s.finalized_only ==> self.none_loaded(s.source, true)
        &&& s.finalized_only ==> self.all_past_tip(s.source, false)
        &&& forall|i: int|
            0 <= i < s.states.len() ==> {
                let p = (#[trigger] s.states[i]).idx as int;
                &&& self.position(p) == Some(standing(s, i))
                &&& self.topics_of(p) == Some((s.states[i].topic1, s.states[i].topic2))
            }
        &&& forall|p: int| #[trigger]
            belongs(self.processors, p, s.source, s.finalized_only) && self.position(p) is Some
                ==> self.position(p)->0 > s.to_block() || exists|i: int|
                0 <= i < s.states.len() && (#[trigger] s.states[i]).idx == p
    }

    spec fn fits_answers(self, s: IterationView) -> bool {
        &&& self.answers().len() == s.fetched.len()
        &&& forall|g: int|
            0 <= g < s.fetched.len() ==> {
                let answer = #[trigger] self.answers()[g];
                &&& answer.source == s.source
                &&& answer.from == s.chunk.from
                &&& answer.to == s.chunk.to
                &&& answer.topic1 == s.chunk.groups[g].topic1
                &&& answer.topic2 == s.chunk.groups[g].topic2
                &&& s.fetched[g] == in_order(answer.logs)
            }
    }

    /// The turns before that of the member have been taken, and its own too if `taken`.
    spec fn fits_turn(self, s: IterationView, group: int, member: int, taken: bool) -> bool {
        &&& self.fits_answers(s)
        &&& forall|g: int|
            0 <= g < s.chunk.groups.len() ==> is_ascending((#[trigger] s.chunk.groups[g]).members)
        &&& forall|g: int, m: int|
            #![trigger s.place(g, m)]
            is_member(s, g, m) ==> {
                &&& self.served().contains(s.states[s.place(g, m)].idx as int) <==> turn_before(
                    g,
                    m,
                    group,
                    member,
                ) || (taken && g == group && m == member)
                &&& !turn_before(g, m, group, member) ==> s.chunk.from <= s.states[s.place(g, m)].cursor
                    <= s.chunk.to
            }
        &&& forall|i: int|
            0 <= i < s.states.len() ==> is_covered(s, i) || (#[trigger] s.states[i]).cursor > s.chunk.to
                || (is_unasked(s, i) && s.chunk.groups.len() == s.budget)
    }

    /// Whoever has not taken a turn was not due, or there was no request left for it.
    pub open spec fn is_chunk_done(self, source: EventsSource, finalized: bool) -> bool {
        forall|p: int| #[trigger]
            belongs(self.processors, p, source, finalized) && !self.served().contains(p)
                ==> self.position(p)->0 > self.answers()[0].to || (self.requests_of(source) == 9
                && !self.asked_for(p))
    }

    spec fn fits_chunk(self, s: IterationView) -> bool {
        match s.phase {
            Phase::Logs => {
                &&& next_chunk(s.states, s.to_block(), s.budget) == Some(s.chunk)
                &&& self.after_request() <==> s.fetched.len() > 0
                &&& s.fetched.len() > 0 ==> self.fits_answers(s)
                &&& s.fetched.len() > 0 ==> self.served().len() == 0
            },
            Phase::Process { group, member } => self.fits_turn(s, group as int, member as int, false),
            Phase::Store { group, member, .. } => self.fits_turn(s, group as int, member as int, true),
            Phase::Stall { group, member, .. } => self.fits_turn(s, group as int, member as int, true),
            Phase::ChunkPause => {
                &&& self.answers().len() > 0
                &&& self.is_chunk_done(s.source, s.finalized_only)
            },
            _ => true,
        }
    }

    spec fn fits_source(self, s: IterationView) -> bool {
        &&& self.chain_of(s.source) == Some(s.chain_id)
        &&& self.tip_of(s.source, false) == s.confirmed
        &&& self.tip_of(s.source, true) == s.finalized
        &&& self.requests_of(s.source) == 9 - s.budget + requests_in_chunk(s)
        &&& match s.phase {
            Phase::ConfirmedBlock | Phase::FinalizedBlock => {
                &&& self.none_loaded(s.source, false)
                &&& self.none_loaded(s.source, true)
            },
            Phase::Cursor { processor } => {
                &&& self.fits_bucket(s)
                &&& forall|p: int| #[trigger]
                    belongs(self.processors, p, s.source, s.finalized_only) ==> (self.position(p) is Some
                        <==> p < processor)
            },
            _ => {
                &&& self.fits_bucket(s)
                &&& self.all_loaded(s.source, s.finalized_only)
                &&& self.loaded_last() matches Some(q) && belongs(
                    self.processors,
                    q,
                    s.source,
                    s.finalized_only,
                )
                &&& self.fits_chunk(s)
            },
        }
    }

    /// The state is what the history has led to.
    spec fn fits(self, s: IterationView) -> bool {
        &&& s.wf()
        &&& s.processors == self.processors
        &&& s.event_expiration_blocks == self.event_expiration_blocks
        &&& if s.phase is Failed {
            true
        } else if s.phase is Finished {
            self.is_done(EventsSource::L1) && self.is_done(EventsSource::SL)
        } else {
            &&& s.source is L1 ==> self.is_untouched(EventsSource::SL)
            &&& s.source is SL ==> self.is_done(EventsSource::L1)
            &&& if s.phase is ChainId {
                self.is_untouched(s.source)
            } else {
                self.fits_source(s)
            }
        }
    }
}

/// [`first_processor`] finds the first processor that belongs, if there is one.
proof fn lemma_first(processors: Seq<ProcessorInfo>, source: EventsSource, finalized: bool, start: int)
    requires
        0 <= start,
        processors.len() <= usize::MAX,
    ensures
        match first_processor(processors, source, finalized, start) {
            Some(p) => is_first(processors, p as int, source, finalized, start),
            None => forall|p: int| start <= p ==> !belongs(processors, p, source, finalized),
        },
        start == 0 ==> (first_processor(processors, source, finalized, start) is Some <==> any_belongs(
            processors,
            source,
            finalized,
        )),
{
    law_first_processor_is_first(processors, source, finalized, start);
    if let Some(p) = first_processor(processors, source, finalized, start) {
        assert(belongs(processors, p as int, source, finalized));
    }
}

impl History {
    /// The last event has changed nothing that is told of a source or of its processors.
    spec fn keeps(self, source: EventsSource) -> bool {
        let b = self.earlier();
        &&& self.chain_of(source) == b.chain_of(source)
        &&& self.tip_of(source, false) == b.tip_of(source, false)
        &&& self.tip_of(source, true) == b.tip_of(source, true)
        &&& self.requests_of(source) == b.requests_of(source)
        &&& forall|p: int|
            0 <= p < self.processors.len() && (#[trigger] self.processors[p]).source == source
                ==> self.position(p) == b.position(p) && self.topics_of(p) == b.topics_of(p)
    }

    proof fn lemma_kept(self, source: EventsSource)
        requires
            self.events.len() > 0,
            self.keeps(source),
        ensures
            self.earlier().is_untouched(source) ==> self.is_untouched(source),
            self.earlier().is_done(source) ==> self.is_done(source),
    {
    }

    /// Serving a source changes nothing that is told of the other.
    proof fn lemma_other_source(self)
        requires
            self.events.len() > 0,
            self.earlier().fits(self.earlier().state()),
            self.earlier().state().awaits(self.events.last()),
        ensures
            self.earlier().state().source is L1 && self.earlier().is_untouched(EventsSource::SL)
                ==> self.is_untouched(EventsSource::SL),
            self.earlier().state().source is SL && self.earlier().is_done(EventsSource::L1)
                ==> self.is_done(EventsSource::L1),
    {
        let s = self.earlier().state();
        if let Phase::Store { group, member, .. } = s.phase {
            assert(s.group_wf(group as int));
            assert(s.in_bucket(s.states[s.place(group as int, member as int)].idx as int));
        }
        if s.source is L1 {
            self.lemma_kept(EventsSource::SL);
        } else {
            self.lemma_kept(EventsSource::L1);
        }
    }
}

impl History {
    /// What the history tells of the source that is being served is what the state holds.
    spec fn meets(self, s: IterationView) -> bool {
        &&& s.processors == self.processors
        &&& s.processors.len() <= usize::MAX
        &&& s.event_expiration_blocks == self.event_expiration_blocks
        &&& s.budget <= 9
        &&& s.source is L1 ==> self.is_untouched(EventsSource::SL)
        &&& s.source is SL ==> self.is_done(EventsSource::L1)
        &&& self.chain_of(s.source) == Some(s.chain_id)
        &&& self.tip_of(s.source, false) == s.confirmed
        &&& self.tip_of(s.source, true) == s.finalized
        &&& self.requests_of(s.source) == 9 - s.budget
        &&& s.confirmed is Some <==> s.wants(false)
        &&& s.finalized is Some <==> s.wants(true)
    }

    proof fn lemma_leave_source(self, s: IterationView)
        requires
            self.meets(s),
            self.is_done(s.source),
            s.leave_source().wf(),
        ensures
            self.fits(s.leave_source()),
    {
        lemma_first(s.processors, EventsSource::SL, false, 0);
        lemma_first(s.processors, EventsSource::SL, true, 0);
    }

    proof fn lemma_seek_finalized(self, s: IterationView)
        requires
            self.meets(s),
            self.none_loaded(s.source, true),
            self.all_loaded(s.source, false),
            s.budget == 0 || self.all_past_tip(s.source, false),
            s.seek_finalized().wf(),
            s.leave_source().wf(),
        ensures
            self.fits(s.seek_finalized()),
    {
        lemma_first(s.processors, s.source, true, 0);
        if s.budget > 0 && s.finalized is Some {
            let t = s.seek_finalized();
            assert(self.fits_bucket(t));
        } else {
            assert(self.is_done(s.source));
            self.lemma_leave_source(s);
        }
    }

    proof fn lemma_leave_bucket(self, s: IterationView)
        requires
            self.meets(s),
            s.tips_known(),
            self.fits_bucket(s),
            self.all_loaded(s.source, s.finalized_only),
            s.budget == 0 || self.all_past_tip(s.source, s.finalized_only),
            s.leave_bucket().wf(),
            s.leave_source().wf(),
        ensures
            self.fits(s.leave_bucket()),
    {
        if s.finalized_only {
            assert(self.is_done(s.source));
            self.lemma_leave_source(s);
        } else {
            self.lemma_seek_finalized(s);
        }
    }

    proof fn lemma_seek_confirmed(self, s: IterationView)
        requires
            self.meets(s),
            s.budget == 9,
            self.none_loaded(s.source, false),
            self.none_loaded(s.source, true),
            s.seek_confirmed().wf(),
            s.seek_finalized().wf(),
            s.leave_source().wf(),
        ensures
            self.fits(s.seek_confirmed()),
    {
        lemma_first(s.processors, s.source, false, 0);
        if s.confirmed is Some {
            assert(self.fits_bucket(s.seek_confirmed()));
        } else {
            self.lemma_seek_finalized(s);
        }
    }

    proof fn lemma_seek_chunk(self, s: IterationView)
        requires
            self.meets(s),
            s.bucket_wf(),
            !(s.phase is Stall),
            self.fits_bucket(s),
            self.all_loaded(s.source, s.finalized_only),
            self.loaded_last() is Some,
            belongs(self.processors, self.loaded_last()->0, s.source, s.finalized_only),
            !self.after_request(),
            s.seek_chunk().wf(),
            s.leave_bucket().wf(),
            s.leave_source().wf(),
        ensures
            self.fits(s.seek_chunk()),
    {
        if any_due(s.states, s.to_block()) {
            let t = s.seek_chunk();
            law_earliest_is_least(s.states, s.to_block());
            assert(self.fits_bucket(t));
        } else {
            assert forall|p: int| #[trigger]
                belongs(self.processors, p, s.source, s.finalized_only) implies self.is_past_tip(p) by {
                if exists|i: int| 0 <= i < s.states.len() && (#[trigger] s.states[i]).idx == p {
                    let i = choose|i: int| 0 <= i < s.states.len() && (#[trigger] s.states[i]).idx == p;
                    assert(!is_due(s.states, s.to_block(), i));
                }
            }
            self.lemma_leave_bucket(s);
        }
    }
}

impl History {
    /// The last event came when it was waited for, and until then the state was what the history had led to.
    spec fn is_step(self) -> bool {
        &&& self.events.len() > 0
        &&& self.earlier().fits(self.earlier().state())
        &&& self.earlier().state().awaits(self.events.last())
        &&& self.state() == self.earlier().state().next(self.events.last())
        &&& self.state().wf()
    }

    proof fn lemma_fact(self)
        requires
            self.is_step(),
            self.events.last() is ChainId || self.events.last() is ConfirmedBlock
                || self.events.last() is FinalizedBlock,
        ensures
            self.fits(self.state()),
    {
        let s = self.earlier().state();
        self.lemma_other_source();
        lemma_first(s.processors, s.source, false, 0);
        lemma_first(s.processors, s.source, true, 0);
        match self.events.last() {
            Event::ConfirmedBlock(block) => {
                let mid = IterationView { confirmed: Some(block), ..s };
                if !s.wants(true) {
                    mid.lemma_seek_confirmed();
                    mid.lemma_seek_finalized();
                    self.lemma_seek_confirmed(mid);
                }
            },
            Event::FinalizedBlock(block) => {
                let mid = IterationView { finalized: Some(block), ..s };
                mid.lemma_seek_confirmed();
                mid.lemma_seek_finalized();
                self.lemma_seek_confirmed(mid);
            },
            _ => {},
        }
    }

    proof fn lemma_cursor(self)
        requires
            self.is_step(),
            self.events.last() is Cursor,
        ensures
            self.fits(self.state()),
    {
        let s = self.earlier().state();
        self.lemma_other_source();
        let processor = s.phase->Cursor_processor;
        let cursor = self.events.last()->Cursor_cursor;
        let topic1 = self.events.last()->Cursor_topic1;
        let topic2 = self.events.last()->Cursor_topic2;
        let mid = s.enlist(PState { idx: processor, cursor, topic1, topic2 });
        lemma_first(s.processors, s.source, s.finalized_only, processor + 1);
        assert(self.loads(processor as int));
        assert(self.meets(mid));
        assert(self.fits_bucket(mid)) by {
            if cursor <= s.to_block() {
                assert(mid.states.last().idx == processor);
                assert forall|p: int| #[trigger]
                    belongs(self.processors, p, s.source, s.finalized_only) && self.position(p) is Some
                        implies self.position(p)->0 > s.to_block() || exists|i: int|
                    0 <= i < mid.states.len() && (#[trigger] mid.states[i]).idx == p by {
                    if p == processor {
                        assert(mid.states[mid.states.len() - 1].idx == p);
                    } else if self.position(p)->0 <= s.to_block() {
                        let i = choose|i: int| 0 <= i < s.states.len() && (#[trigger] s.states[i]).idx == p;
                        assert(mid.states[i].idx == p);
                    }
                }
            }
        }
        mid.lemma_seek_finalized();
        if first_processor(s.processors, s.source, s.finalized_only, processor + 1) is Some {
            assert(self.fits_bucket(self.state()));
        } else {
            assert(self.all_loaded(s.source, s.finalized_only));
            if mid.states.len() > 0 {
                mid.lemma_seek_chunk();
                self.lemma_seek_chunk(mid);
            } else {
                self.lemma_leave_bucket(mid);
            }
        }
    }
}

/// Whoever is due in a chunk takes part in it, unless there is no request left for its topics.
proof fn lemma_chunk_turns(s: IterationView)
    requires
        s.chunk_wf(),
        next_chunk(s.states, s.to_block(), s.budget) == Some(s.chunk),
    ensures
        forall|g: int, m: int|
            #![trigger s.place(g, m)]
            is_member(s, g, m) ==> s.chunk.from <= s.states[s.place(g, m)].cursor <= s.chunk.to,
        forall|i: int|
            0 <= i < s.states.len() ==> is_covered(s, i) || (#[trigger] s.states[i]).cursor > s.chunk.to
                || (is_unasked(s, i) && s.chunk.groups.len() == s.budget),
        forall|g: int|
            0 <= g < s.chunk.groups.len() ==> is_ascending((#[trigger] s.chunk.groups[g]).members),
{
    law_earliest_is_least(s.states, s.to_block());
    law_groups_partition(s.states, s.chunk.to);
    let all = groups_due(s.states, s.chunk.to);
    assert forall|g: int| 0 <= g < s.chunk.groups.len() implies is_ascending(
        (#[trigger] s.chunk.groups[g]).members,
    ) by {
        assert(s.chunk.groups[g] == all[g]);
    }
    assert forall|g: int, m: int|
        #![trigger s.place(g, m)]
        is_member(s, g, m) implies s.chunk.from <= s.states[s.place(g, m)].cursor <= s.chunk.to by {
        let place = all[g].members[m];
        assert(place == s.place(g, m));
        assert(is_due(s.states, s.chunk.to, place));
        assert(s.states[place].cursor >= s.chunk.from);
    }
    assert forall|i: int| 0 <= i < s.states.len() implies is_covered(s, i) || (
    #[trigger] s.states[i]).cursor > s.chunk.to || (is_unasked(s, i) && s.chunk.groups.len()
        == s.budget) by {
        if s.states[i].cursor <= s.chunk.to {
            assert(is_due(s.states, s.chunk.to, i));
            let a = choose|a: int| 0 <= a < all.len() && (#[trigger] all[a]).members.contains(i);
            let m = all[a].members.index_of(i);
            assert(all[a].members[m] == i);
            if a < s.chunk.groups.len() {
                assert(is_member(s, a, m) && s.place(a, m) == i);
            } else {
                assert forall|g: int| 0 <= g < s.chunk.groups.len() implies (
                #[trigger] s.chunk.groups[g]).topic1 != s.states[i].topic1 || s.chunk.groups[g].topic2
                    != s.states[i].topic2 by {
                    assert(s.chunk.groups[g] == all[g]);
                    assert(all[g].topic1 != all[a].topic1 || all[g].topic2 != all[a].topic2);
                }
            }
        }
    }
}

impl History {
    proof fn lemma_logs(self)
        requires
            self.is_step(),
            self.events.last() is Logs,
        ensures
            self.fits(self.state()),
    {
        let s = self.earlier().state();
        let t = self.state();
        self.lemma_other_source();
        assert(self.fits_answers(t));
        assert(self.fits_bucket(t));
        assert(next_chunk(t.states, t.to_block(), t.budget) == Some(t.chunk));
        if t.phase is Process {
            lemma_chunk_turns(t);
            assert(self.fits_turn(t, 0, 0, false));
        }
    }

    proof fn lemma_processed(self)
        requires
            self.is_step(),
            self.events.last() is Processed,
        ensures
            self.fits(self.state()),
    {
        let s = self.earlier().state();
        let t = self.state();
        self.lemma_other_source();
        let group = s.phase->Process_group as int;
        let member = s.phase->Process_member as int;
        let before = self.earlier().served();
        let idx = s.states[s.place(group, member)].idx as int;
        assert(self.served() == before.push(idx));
        assert(self.fits_bucket(t));
        assert(self.fits_answers(t));
        assert forall|g: int, m: int|
            #![trigger t.place(g, m)]
            is_member(t, g, m) implies {
            &&& self.served().contains(t.states[t.place(g, m)].idx as int) <==> turn_before(
                g,
                m,
                group,
                member,
            ) || (g == group && m == member)
            &&& !turn_before(g, m, group, member) ==> t.chunk.from <= t.states[t.place(g, m)].cursor
                <= t.chunk.to
        } by {
            assert(is_member(s, g, m) && s.place(g, m) == t.place(g, m));
            let other = s.states[s.place(g, m)].idx as int;
            if g != group || m != member {
                law_members_are_served_once(s, g, m, group, member);
                assert(other != idx);
                if before.contains(other) {
                    let k = before.index_of(other);
                    assert(self.served()[k] == other);
                }
                if self.served().contains(other) {
                    let k = self.served().index_of(other);
                    assert(before[k] == other);
                }
            } else {
                assert(self.served()[before.len() as int] == idx);
            }
        }
        assert forall|i: int| 0 <= i < t.states.len() implies is_covered(t, i) || (
        #[trigger] t.states[i]).cursor > t.chunk.to || (is_unasked(t, i) && t.chunk.groups.len()
            == t.budget) by {
            assert(s.states[i] == t.states[i]);
            if is_covered(s, i) {
                let (g, m) = choose|g: int, m: int| is_member(s, g, m) && #[trigger] s.place(g, m) == i;
                assert(is_member(t, g, m) && t.place(g, m) == i);
            }
        }
        assert(self.fits_turn(t, group, member, true));
    }
}

impl History {
    /// A turn that was taken, with the processor moved on, leads to the next turn or to the end of the chunk.
    proof fn lemma_after_turn(self, s: IterationView, group: usize, member: usize, next_block: u64)
        requires
            s.serving(group as int, member as int),
            s.wf(),
            self.meets_chunk(s),
            self.fits_turn(s, group as int, member as int, true),
            self.fits_bucket_but(s, s.place(group as int, member as int)),
            self.position(s.states[s.place(group as int, member as int)].idx as int) == Some(
                moved_on(s.states[s.place(group as int, member as int)].cursor, next_block) as int,
            ),
            self.all_loaded(s.source, s.finalized_only),
            self.loaded_last() is Some,
            belongs(self.processors, self.loaded_last()->0, s.source, s.finalized_only),
        ensures
            self.fits(s.move_member(group, member, next_block).after_member(group, member)),
    {
        s.lemma_move_member(group, member, next_block);
        let mid = s.move_member(group, member, next_block);
        let t = mid.after_member(group, member);
        let here = s.place(group as int, member as int);
        assert(s.group_wf(group as int));
        assert(0 <= here < s.states.len());
        lemma_members_bounded(s, group as int);
        assert forall|i: int| 0 <= i < t.states.len() implies (#[trigger] t.states[i]).idx
            == s.states[i].idx && t.states[i].topic1 == s.states[i].topic1 && t.states[i].topic2
            == s.states[i].topic2 && (i != here ==> t.states[i] == s.states[i]) by {}
        assert(self.fits_bucket(t)) by {
            assert forall|p: int| #[trigger]
                belongs(self.processors, p, t.source, t.finalized_only) && self.position(p) is Some
                    implies self.position(p)->0 > t.to_block() || exists|i: int|
                0 <= i < t.states.len() && (#[trigger] t.states[i]).idx == p by {
                if self.position(p)->0 <= s.to_block() {
                    let i = choose|i: int| 0 <= i < s.states.len() && (#[trigger] s.states[i]).idx == p;
                    assert(t.states[i].idx == p);
                }
            }
        }
        assert(self.fits_answers(t));
        assert forall|g: int, m: int| #[trigger] is_member(s, g, m) && (g != group || m != member) implies s.place(
            g,
            m,
        ) != here by {
            law_members_are_served_once(s, g, m, group as int, member as int);
        }
        assert forall|i: int| 0 <= i < t.states.len() implies is_covered(t, i) || (
        #[trigger] t.states[i]).cursor > t.chunk.to || (is_unasked(t, i) && s.chunk.groups.len()
            == s.budget) by {
            assert(s.states[i].idx == t.states[i].idx);
            if is_covered(s, i) {
                let (g, m) = choose|g: int, m: int| is_member(s, g, m) && #[trigger] s.place(g, m) == i;
                assert(is_member(t, g, m) && t.place(g, m) == i);
            } else if i == here {
                assert(is_member(s, group as int, member as int));
                assert(false);
            } else if is_unasked(s, i) {
                assert(is_unasked(t, i));
            }
        }
        if let Phase::Process { group: next_group, member: next_member } = t.phase {
            assert forall|g: int, m: int|
                #![trigger t.place(g, m)]
                is_member(t, g, m) implies {
                &&& self.served().contains(t.states[t.place(g, m)].idx as int) <==> turn_before(
                    g,
                    m,
                    next_group as int,
                    next_member as int,
                )
                &&& !turn_before(g, m, next_group as int, next_member as int) ==> t.chunk.from
                    <= t.states[t.place(g, m)].cursor <= t.chunk.to
            } by {
                assert(is_member(s, g, m) && s.place(g, m) == t.place(g, m));
                assert(s.group_wf(g));
                let i = s.chunk.groups[g].members[m];
                assert(0 <= i < s.states.len());
                assert(t.states[i].idx == s.states[i].idx);
                assert(turn_before(g, m, next_group as int, next_member as int) <==> turn_before(
                    g,
                    m,
                    group as int,
                    member as int,
                ) || (g == group && m == member));
                if g != group || m != member {
                    assert(i != here);
                }
            }
            assert(self.fits_turn(t, next_group as int, next_member as int, false));
        } else {
            assert(self.is_chunk_done(t.source, t.finalized_only)) by {
                assert forall|p: int| #[trigger]
                    belongs(self.processors, p, t.source, t.finalized_only) && !self.served().contains(p)
                        implies self.position(p)->0 > self.answers()[0].to || (self.requests_of(t.source)
                    == 9 && !self.asked_for(p)) by {
                    assert(self.answers()[0].to == s.chunk.to);
                    if self.position(p)->0 <= s.chunk.to {
                        let i = choose|i: int| 0 <= i < t.states.len() && (#[trigger] t.states[i]).idx == p;
                        if is_covered(t, i) {
                            let (g, m) = choose|g: int, m: int|
                                is_member(t, g, m) && #[trigger] t.place(g, m) == i;
                            assert(is_member(s, g, m) && s.place(g, m) == i);
                            assert(s.states[i].idx == p);
                        }
                        assert(is_unasked(t, i) && s.chunk.groups.len() == s.budget);
                        assert(!self.asked_for(p)) by {
                            if self.asked_for(p) {
                                let g = choose|g: int|
                                    0 <= g < self.answers().len() && self.is_for(
                                        #[trigger] self.answers()[g],
                                        p,
                                    );
                                assert(t.chunk.groups[g].topic1 == self.answers()[g].topic1);
                            }
                        }
                    }
                }
            }
        }
    }

    /// What the history tells of the source while a chunk is being served is what the state holds.
    spec fn meets_chunk(self, s: IterationView) -> bool {
        self.meets(IterationView { budget: (s.budget - s.fetched.len()) as nat, ..s }) && s.fetched.len()
            <= s.budget
    }

    /// The states stand where the history says, but for that at place `here`.
    spec fn fits_bucket_but(self, s: IterationView, here: int) -> bool {
        &&& !s.finalized_only ==> self.none_loaded(s.source, true)
        &&& s.finalized_only ==> self.all_past_tip(s.source, false)
        &&& forall|i: int|
            0 <= i < s.states.len() ==> {
                let p = (#[trigger] s.states[i]).idx as int;
                &&& i != here ==> self.position(p) == Some(s.states[i].cursor as int)
                &&& self.topics_of(p) == Some((s.states[i].topic1, s.states[i].topic2))
            }
        &&& forall|p: int| #[trigger]
            belongs(self.processors, p, s.source, s.finalized_only) && self.position(p) is Some
                ==> self.position(p)->0 > s.to_block() || exists|i: int|
                0 <= i < s.states.len() && (#[trigger] s.states[i]).idx == p
    }

    proof fn lemma_stored(self)
        requires
            self.is_step(),
            self.events.last() is Stored,
        ensures
            self.fits(self.state()),
    {
        let s = self.earlier().state();
        let t = self.state();
        self.lemma_other_source();
        let group = s.phase->Store_group;
        let member = s.phase->Store_member;
        let next_block = s.phase->Store_next_block;
        let here = s.place(group as int, member as int);
        assert(s.group_wf(group as int));
        assert(0 <= here < s.states.len());
        let idx = s.states[here].idx as int;
        assert(self.stores(idx));
        assert(self.earlier().position(idx) == Some(s.states[here].cursor as int));
        assert(self.position(idx) == Some(moved_on(s.states[here].cursor, next_block) as int));
        assert(self.served() == self.earlier().served());
        assert(self.answers() == self.earlier().answers());
        assert forall|p: int| p != idx implies #[trigger] self.position(p) == self.earlier().position(p) by {}
        assert(s.in_bucket(idx));
        assert(belongs(self.processors, idx, s.source, s.finalized_only));
        assert forall|i: int| 0 <= i < s.states.len() && i != here implies (#[trigger] s.states[i]).idx
            != idx by {
            if i < here {
                assert(s.states[i].idx < s.states[here].idx);
            } else {
                assert(s.states[here].idx < s.states[i].idx);
            }
        }
        assert(self.fits_bucket_but(s, here)) by {
            assert forall|p: int| #[trigger]
                belongs(self.processors, p, s.source, s.finalized_only) && self.position(p) is Some
                    implies self.position(p)->0 > s.to_block() || exists|i: int|
                0 <= i < s.states.len() && (#[trigger] s.states[i]).idx == p by {
                if p == idx {
                    assert(s.states[here].idx == p);
                }
            }
        }
        if t.phase is Stall {
            assert(self.fits_bucket(t));
            assert(self.fits_answers(t));
            assert forall|g: int, m: int|
                #![trigger t.place(g, m)]
                is_member(t, g, m) implies is_member(s, g, m) && t.place(g, m) == s.place(g, m) by {}
            assert forall|i: int| 0 <= i < t.states.len() implies is_covered(t, i) || (
            #[trigger] t.states[i]).cursor > t.chunk.to || (is_unasked(t, i) && t.chunk.groups.len()
                == t.budget) by {
                assert(s.states[i] == t.states[i]);
                if is_covered(s, i) {
                    let (g, m) = choose|g: int, m: int| is_member(s, g, m) && #[trigger] s.place(g, m) == i;
                    assert(is_member(t, g, m) && t.place(g, m) == i);
                }
            }
            assert(self.fits_turn(t, group as int, member as int, true));
        } else {
            assert(self.fits_answers(s));
            assert(self.fits_turn(s, group as int, member as int, true));
            self.lemma_after_turn(s, group, member, next_block);
        }
    }

    proof fn lemma_slept(self)
        requires
            self.is_step(),
            self.events.last() is Slept,
        ensures
            self.fits(self.state()),
    {
        let s = self.earlier().state();
        self.lemma_other_source();
        match s.phase {
            Phase::Stall { group, member, next_block } => {
                let here = s.place(group as int, member as int);
                assert(s.group_wf(group as int));
                assert(0 <= here < s.states.len());
                assert(self.fits_turn(s, group as int, member as int, true));
                assert(self.fits_bucket_but(s, here));
                self.lemma_after_turn(s, group, member, next_block);
            },
            Phase::ChunkPause => {
                s.lemma_seek_chunk();
                s.lemma_seek_finalized();
                assert(self.fits_bucket(s));
                self.lemma_seek_chunk(s);
            },
            _ => {
                s.lemma_seek_finalized();
                assert(self.fits_bucket(s));
                self.lemma_leave_bucket(s);
            },
        }
    }

    /// At all times the state is what the history has led to.
    proof fn lemma_fits(self)
        requires
            self.is_valid(),
        ensures
            self.fits(self.state()),
            self.events.len() > 0 ==> self.is_step() && self.earlier().is_valid(),
        decreases self.events.len(),
    {
        reveal(after);
        if self.events.len() == 0 {
            IterationView::law_begin_is_wf(self.processors, self.event_expiration_blocks);
            lemma_first(self.processors, EventsSource::L1, false, 0);
            lemma_first(self.processors, EventsSource::L1, true, 0);
            lemma_first(self.processors, EventsSource::SL, false, 0);
            lemma_first(self.processors, EventsSource::SL, true, 0);
        } else {
            self.earlier().lemma_fits();
            self.earlier().state().law_next_keeps_wf(self.events.last());
            match self.events.last() {
                Event::Cursor { .. } => self.lemma_cursor(),
                Event::Logs(_) => self.lemma_logs(),
                Event::Processed(_) => self.lemma_processed(),
                Event::Stored => self.lemma_stored(),
                Event::Slept => self.lemma_slept(),
                Event::Failed => {},
                _ => self.lemma_fact(),
            }
        }
    }
}

impl History {
    /// The pass goes on after a source: to the settlement layer, if that was not it and if it has processors.
    pub open spec fn leaves_source(self, source: EventsSource) -> bool {
        if source is L1 && (any_belongs(self.processors, EventsSource::SL, false) || any_belongs(
            self.processors,
            EventsSource::SL,
            true,
        )) {
            self.action() == ActionView::FetchChainId { source: EventsSource::SL }
        } else {
            self.action() == ActionView::Return(Ok(()))
        }
    }

    /// The pass asks for the block that is stored for the first such processor from `start` on.
    pub open spec fn loads_first(self, source: EventsSource, finalized: bool, start: int) -> bool {
        self.action() matches ActionView::LoadCursor { processor, .. } && is_first(
            self.processors,
            processor as int,
            source,
            finalized,
            start,
        )
    }

    /// The pass goes on after the processors of one finality: after those of confirmed blocks come those of
    /// finalized ones, if there are any and a request is left for them.
    pub open spec fn leaves_bucket(self, source: EventsSource, finalized: bool) -> bool {
        if !finalized && any_belongs(self.processors, source, true) && self.requests_of(source) < 9 {
            self.loads_first(source, true, 0)
        } else {
            self.leaves_source(source)
        }
    }

    /// All processors of one finality have seen all that they may see.
    pub open spec fn are_past_tip(self, source: EventsSource, finalized: bool) -> bool {
        forall|p: int| #[trigger]
            belongs(self.processors, p, source, finalized) ==> self.is_past_tip(p)
    }

    /// The last requests are for everyone who has yet to see a block of them.
    pub open spec fn are_asked_for(self, source: EventsSource, finalized: bool) -> bool {
        forall|p: int| #[trigger]
            belongs(self.processors, p, source, finalized) && self.position(p)->0
                <= self.answers().last().to ==> self.asked_for(p)
    }

    /// The processors that are being served: those with the source and the finality of the one that was
    /// loaded last.
    pub open spec fn serves(self, source: EventsSource, finalized: bool) -> bool {
        self.loaded_last() matches Some(q) && belongs(self.processors, q, source, finalized)
    }
}

/// The block that is stored for a processor is asked for once in a pass, under the id of its chain. Where none
/// is stored it is set to the last block that the processor may see, less the expiration, or to 0: the last
/// block that the node of its source has reported as confirmed, or as finalized if the processor insists on
/// it. A processor of finalized blocks is turned to when all those of confirmed blocks are past their tip.
pub proof fn law_cursor_is_loaded(h: History)
    requires
        h.is_valid(),
    ensures
        h.action() matches ActionView::LoadCursor { processor, chain_id, default_block } ==> {
            let p = processor as int;
            let source = h.processors[p].source;
            let finalized = h.processors[p].only_finalized;
            &&& p < h.processors.len()
            &&& h.position(p) is None
            &&& h.chain_of(source) == Some(chain_id)
            &&& h.requests_of(source) < 9
            &&& h.tip_of(source, finalized) matches Some(tip) && default_block == if tip
                >= h.event_expiration_blocks {
                tip - h.event_expiration_blocks
            } else {
                0int
            }
            &&& forall|q: int| q < p && #[trigger] belongs(h.processors, q, source, finalized)
                ==> h.position(q) is Some
            &&& finalized ==> h.are_past_tip(source, false)
        },
{
    h.lemma_fits();
    let s = h.state();
    if let Phase::Cursor { processor } = s.phase {
        assert(belongs(h.processors, processor as int, s.source, s.finalized_only));
    }
}

/// Logs are asked for from the next block of the processor that is furthest behind, up to a thousand blocks,
/// and not beyond the last block that the processors may see; for the topics of one of them that has yet to
/// see such a block. Requests one right after the other are for the same blocks, each for other topics.
pub proof fn law_next_blocks_are_fetched(h: History)
    requires
        h.is_valid(),
    ensures
        h.action() matches ActionView::FetchLogs { source, from, to, topic1, topic2, retry_limit } ==> {
            &&& retry_limit == 0
            &&& h.requests_of(source) < 9
            &&& exists|finalized: bool|
                {
                    &&& #[trigger] h.serves(source, finalized)
                    &&& h.tip_of(source, finalized) matches Some(tip) && from <= tip && to == if from + 999
                        <= tip {
                        from + 999
                    } else {
                        tip as int
                    }
                    &&& forall|p: int| #[trigger]
                        belongs(h.processors, p, source, finalized) ==> h.position(p) is Some && from
                            <= h.position(p)->0
                    &&& exists|p: int| #[trigger]
                        belongs(h.processors, p, source, finalized) && h.position(p) == Some(from as int)
                    &&& exists|p: int| #[trigger]
                        belongs(h.processors, p, source, finalized) && h.position(p)->0 <= to
                            && h.topics_of(p) == Some((topic1, topic2))
                }
            &&& h.after_request() ==> forall|g: int|
                0 <= g < h.answers().len() ==> {
                    let answer = #[trigger] h.answers()[g];
                    &&& answer.source == source && answer.from == from && answer.to == to
                    &&& answer.topic1 != topic1 || answer.topic2 != topic2
                }
        },
{
    h.lemma_fits();
    let s = h.state();
    if s.phase is Logs {
        let f = s.finalized_only;
        lemma_fetch(h, s);
        assert(h.serves(s.source, f));
    }
}

proof fn lemma_fetch(h: History, s: IterationView)
    requires
        h.fits(s),
        s.phase is Logs,
    ensures
        s.chunk.from <= s.to_block(),
        s.chunk.to == if s.chunk.from + 999 <= s.to_block() {
            s.chunk.from + 999
        } else {
            s.to_block() as int
        },
        forall|p: int| #[trigger]
            belongs(h.processors, p, s.source, s.finalized_only) ==> h.position(p) is Some && s.chunk.from
                <= h.position(p)->0,
        exists|p: int| #[trigger]
            belongs(h.processors, p, s.source, s.finalized_only) && h.position(p) == Some(
                s.chunk.from as int,
            ),
        exists|p: int| #[trigger]
            belongs(h.processors, p, s.source, s.finalized_only) && h.position(p)->0 <= s.chunk.to
                && h.topics_of(p) == Some(
                (
                    s.chunk.groups[s.fetched.len() as int].topic1,
                    s.chunk.groups[s.fetched.len() as int].topic2,
                ),
            ),
        forall|g: int|
            0 <= g < s.fetched.len() ==> (#[trigger] s.chunk.groups[g]).topic1
                != s.chunk.groups[s.fetched.len() as int].topic1 || s.chunk.groups[g].topic2
                != s.chunk.groups[s.fetched.len() as int].topic2,
{
    law_earliest_is_least(s.states, s.to_block());
    lemma_chunk_turns(s);
    let i = choose|i: int| 0 <= i < s.states.len() && (#[trigger] s.states[i]).cursor == s.chunk.from;
    assert(s.in_bucket(s.states[i].idx as int));
    assert(belongs(h.processors, s.states[i].idx as int, s.source, s.finalized_only));
    let group = s.fetched.len() as int;
    assert(s.group_wf(group));
    let place = s.place(group, 0);
    assert(s.chunk.groups[group].members[0] == place);
    assert(is_member(s, group, 0));
    assert(s.in_bucket(s.states[place].idx as int));
    assert(belongs(h.processors, s.states[place].idx as int, s.source, s.finalized_only));
    assert forall|p: int| #[trigger]
        belongs(h.processors, p, s.source, s.finalized_only) implies h.position(p) is Some && s.chunk.from
        <= h.position(p)->0 by {
        if h.position(p)->0 <= s.to_block() {
            let k = choose|k: int| 0 <= k < s.states.len() && (#[trigger] s.states[k]).idx == p;
            assert(s.chunk.from <= s.states[k].cursor);
        }
    }
}

/// A processor is handed the logs, in order, with which the node of its source has answered the request for
/// its own topics. It is handed them only if its next block is among those of the request, and once only; and
/// the request goes no further than the last block that the processor may see. Of processors with the same
/// topics, the first one has the first turn.
pub proof fn law_logs_are_handed_out(h: History)
    requires
        h.is_valid(),
    ensures
        h.action() matches ActionView::ProcessEvents { processor, logs } ==> {
            let p = processor as int;
            let source = h.processors[p].source;
            let finalized = h.processors[p].only_finalized;
            &&& p < h.processors.len()
            &&& h.serves(source, finalized)
            &&& !h.served().contains(p)
            &&& h.position(p) is Some && h.tip_of(source, finalized) is Some
            &&& exists|g: int|
                {
                    let answer = #[trigger] h.answers()[g];
                    &&& 0 <= g < h.answers().len()
                    &&& h.is_for(answer, p)
                    &&& are_sorted(answer.logs, logs)
                    &&& answer.source == source
                    &&& answer.from <= h.position(p)->0 <= answer.to <= h.tip_of(source, finalized)->0
                    &&& forall|q: int|
                        q < p && #[trigger] belongs(h.processors, q, source, finalized) && h.topics_of(q)
                            == h.topics_of(p) && !h.served().contains(q) ==> h.position(q)->0 > answer.to
                }
        },
{
    h.lemma_fits();
    let s = h.state();
    if let Phase::Process { group, member } = s.phase {
        lemma_turn(h, s, group as int, member as int);
        let answer = h.answers()[group as int];
        law_sorted_logs_ascend(answer.logs);
        assert(are_taken_from(answer.logs, s.fetched[group as int], ordered_places_of(answer.logs)));
        assert(are_sorted(answer.logs, s.fetched[group as int]));
        lemma_turns_ascend(h, s, group as int, member as int);
    }
}

/// Of the processors with the same topics, those before the one whose turn it is have had theirs.
proof fn lemma_turns_ascend(h: History, s: IterationView, group: int, member: int)
    requires
        h.fits(s),
        s.phase matches Phase::Process { group: g, member: m } && g == group && m == member,
    ensures
        ({
            let p = s.states[s.place(group, member)].idx as int;
            forall|q: int|
                q < p && #[trigger] belongs(h.processors, q, s.source, s.finalized_only) && h.topics_of(q)
                    == h.topics_of(p) && !h.served().contains(q) ==> h.position(q)->0 > s.chunk.to
        }),
{
    let here = s.place(group, member);
    let p = s.states[here].idx as int;
    assert(s.group_wf(group));
    assert(s.chunk.groups[group].members[member] == here);
    assert forall|q: int|
        q < p && #[trigger] belongs(h.processors, q, s.source, s.finalized_only) && h.topics_of(q)
            == h.topics_of(p) && !h.served().contains(q) implies h.position(q)->0 > s.chunk.to by {
        if h.position(q)->0 <= s.chunk.to {
            let i = choose|i: int| 0 <= i < s.states.len() && (#[trigger] s.states[i]).idx == q;
            assert(h.topics_of(s.states[here].idx as int) == Some((s.states[here].topic1, s.states[here].topic2)));
            if i >= here {
                if i > here {
                    assert(s.states[here].idx < s.states[i].idx);
                }
                assert(false);
            }
            if !is_covered(s, i) {
                assert(s.chunk.groups[group].topic1 == s.states[i].topic1);
                assert(false);
            }
            let (g, m) = choose|g: int, m: int| is_member(s, g, m) && #[trigger] s.place(g, m) == i;
            assert(s.group_wf(g));
            assert(s.chunk.groups[g].members[m] == i);
            if g < group {
                assert(s.chunk.groups[g].topic1 == s.chunk.groups[group].topic1);
            } else if g > group {
                assert(s.chunk.groups[group].topic1 == s.chunk.groups[g].topic1);
            }
            assert(g == group);
            if m > member {
                assert(s.chunk.groups[group].members[member] < s.chunk.groups[group].members[m]);
            }
        }
    }
}

/// The turn is that of a processor that is being served.
proof fn lemma_turn(h: History, s: IterationView, group: int, member: int)
    requires
        h.fits(s),
        s.phase is Process || s.phase is Store,
        s.phase matches Phase::Process { group: g, member: m } ==> g == group && m == member,
        s.phase matches Phase::Store { group: g, member: m, .. } ==> g == group && m == member,
    ensures
        ({
            let place = s.place(group, member);
            let p = s.states[place].idx as int;
            let answer = h.answers()[group];
            &&& 0 <= place < s.states.len()
            &&& belongs(h.processors, p, s.source, s.finalized_only)
            &&& s.phase is Process ==> !h.served().contains(p)
            &&& 0 <= group < h.answers().len()
            &&& h.is_for(answer, p)
            &&& s.fetched[group] == in_order(answer.logs)
            &&& answer.from == s.chunk.from && answer.to == s.chunk.to && answer.source == s.source
            &&& h.position(p) == Some(s.states[place].cursor as int)
            &&& s.chunk.from <= s.states[place].cursor <= s.chunk.to <= s.to_block()
            &&& h.tip_of(s.source, s.finalized_only) == Some(s.to_block())
        }),
{
    assert(s.group_wf(group));
    let place = s.place(group, member);
    assert(s.chunk.groups[group].members[member] == place);
    assert(is_member(s, group, member));
    assert(s.in_bucket(s.states[place].idx as int));
}

/// After a processor was handed logs, a block is stored for it, and for no other, under the id of its chain.
/// If it has processed all of them, this is the block right after those of the request (where a further block
/// can be numbered at all); if none, the first block of the request; and else the block of the last log that it
/// has processed. So it is no later than the block of any log that it has not processed, as long as the logs
/// lie in the blocks of the request. Nothing is stored at any other time.
pub proof fn law_progress_is_stored(h: History, processor: usize, logs: Seq<Log>, processed: usize)
    requires
        h.is_valid(),
    ensures
        h.has_answered(ActionView::ProcessEvents { processor, logs }) && h.events.last()
            == Event::Processed(processed) ==> {
            let n = processed as int;
            let answer = h.answers().last();
            &&& n <= logs.len()
            &&& h.action() matches ActionView::StoreCursor { processor: of, chain_id, next_block } && {
                &&& of == processor
                &&& h.chain_of(h.processors[processor as int].source) == Some(chain_id)
                &&& n == logs.len() && answer.to < u64::MAX ==> next_block == answer.to + 1
                &&& n == logs.len() && answer.to == u64::MAX ==> next_block == answer.to
                &&& n == 0 && 0 < logs.len() ==> next_block == answer.from
                &&& 0 < n < logs.len() ==> logs[n - 1].block_number == Some(next_block)
                &&& (forall|i: int|
                    0 <= i < logs.len() ==> answer.from <= block_of(#[trigger] logs[i]) <= answer.to)
                    ==> forall|i: int| n <= i < logs.len() ==> next_block <= block_of(#[trigger] logs[i])
            }
        },
        h.action() is StoreCursor ==> {
            &&& h.events.len() > 0
            &&& h.earlier().action() is ProcessEvents
            &&& h.events.last() is Processed
        },
{
    h.lemma_fits();
    if h.events.len() > 0 {
        let b = h.earlier();
        b.lemma_fits();
        let s = b.state();
        if let Phase::Process { group, member } = s.phase {
            lemma_turn(b, s, group as int, member as int);
            law_sorted_logs_ascend(b.answers()[group as int].logs);
            let fetched = s.fetched[group as int];
            assert(h.answers() == b.answers());
            assert(h.answers().last().to == s.chunk.to);
            if h.events.last() == Event::Processed(processed) && 0 < processed < fetched.len() {
                assert forall|i: int| processed <= i < fetched.len() implies block_of(
                    fetched[processed - 1],
                ) <= block_of(#[trigger] fetched[i]) by {
                    assert(no_later(fetched[processed - 1], fetched[i]));
                }
            }
        }
    }
}

/// A turn is over: the next one of the same requests follows, or, when everyone who was due has taken its
/// turn, a short pause.
pub open spec fn turn_is_over(h: History) -> bool {
    ||| h.action() is ProcessEvents
    ||| {
        &&& h.action() == ActionView::Sleep(Pause { min_ms: 60, max_ms: 150 })
        &&& h.loaded_last() matches Some(q) && {
            let info = h.processors[q];
            0 <= q < h.processors.len() && h.is_chunk_done(info.source, info.only_finalized)
        }
    }
}

/// After a block was stored the turn is over, if that takes the processor further. If not, a longer pause
/// comes first.
pub proof fn law_turns_are_taken(h: History)
    requires
        h.is_valid(),
        h.events.len() > 0,
    ensures
        h.earlier().action() matches ActionView::StoreCursor { processor, next_block, .. } ==> {
            let before = h.earlier().position(processor as int);
            &&& before is Some
            &&& h.events.last() is Stored && next_block > before->0 ==> turn_is_over(h)
            &&& h.events.last() is Stored && next_block <= before->0 ==> h.action() == ActionView::Sleep(
                Pause { min_ms: 150, max_ms: 350 },
            )
        },
        h.earlier().action() == ActionView::Sleep(Pause { min_ms: 150, max_ms: 350 }) ==> turn_is_over(h),
{
    h.lemma_fits();
    let b = h.earlier();
    b.lemma_fits();
    let s = b.state();
    let t = h.state();
    if let Phase::Store { group, member, .. } = s.phase {
        lemma_turn(b, s, group as int, member as int);
    }
    if t.phase is ChunkPause {
        let q = h.loaded_last()->0;
        assert(belongs(h.processors, q, t.source, t.finalized_only));
    }
}

/// A pass starts with the L1, or, if that has no processors, with the settlement layer. Of either source it
/// asks for the id of the chain, and then for the last confirmed block and for the last finalized one, each if
/// a processor is shown such blocks. Then it turns to the processors: those of confirmed blocks first.
pub proof fn law_sources_are_opened(h: History, source: EventsSource)
    requires
        h.is_valid(),
    ensures
        h.events.len() == 0 ==> {
            if any_belongs(h.processors, EventsSource::L1, false) || any_belongs(h.processors, EventsSource::L1, true) {
                h.action() == ActionView::FetchChainId { source: EventsSource::L1 }
            } else {
                h.leaves_source(EventsSource::L1)
            }
        },
        h.has_answered(ActionView::FetchChainId { source }) && h.events.last() is ChainId ==> h.action()
            == if any_belongs(h.processors, source, false) {
            ActionView::FetchConfirmedBlock { source }
        } else {
            ActionView::FetchFinalizedBlock { source }
        },
        h.has_answered(ActionView::FetchConfirmedBlock { source }) && h.events.last() is ConfirmedBlock
            ==> if any_belongs(h.processors, source, true) {
            h.action() == ActionView::FetchFinalizedBlock { source }
        } else {
            h.loads_first(source, false, 0)
        },
        h.has_answered(ActionView::FetchFinalizedBlock { source }) && h.events.last() is FinalizedBlock
            ==> h.loads_first(source, !any_belongs(h.processors, source, false), 0),
{
    h.lemma_fits();
    lemma_first(h.processors, EventsSource::L1, false, 0);
    lemma_first(h.processors, EventsSource::L1, true, 0);
    lemma_first(h.processors, EventsSource::SL, false, 0);
    lemma_first(h.processors, EventsSource::SL, true, 0);
    reveal(after);
    if h.events.len() > 0 {
        h.earlier().lemma_fits();
    }
}

/// What follows when all that was asked for the processors that are being served has been done.
proof fn lemma_leaving(h: History, s: IterationView)
    requires
        s.processors == h.processors,
        s.processors.len() <= usize::MAX,
        s.finalized is Some <==> s.wants(true),
        h.state() == s.leave_bucket(),
        h.requests_of(s.source) == 9 - s.budget,
    ensures
        h.leaves_bucket(s.source, s.finalized_only),
{
    lemma_first(h.processors, EventsSource::L1, false, 0);
    lemma_first(h.processors, EventsSource::L1, true, 0);
    lemma_first(h.processors, EventsSource::SL, false, 0);
    lemma_first(h.processors, EventsSource::SL, true, 0);
}

/// The processors of a source and a finality are loaded one after the other, none is passed over. After the
/// last of them logs are asked for, unless all of them are past their tip.
pub proof fn law_cursors_are_loaded_in_turn(h: History)
    requires
        h.is_valid(),
        h.events.len() > 0,
    ensures
        h.earlier().action() matches ActionView::LoadCursor { processor, .. } ==> (h.events.last() is Cursor
            ==> {
            let p = processor as int;
            let source = h.processors[p].source;
            let finalized = h.processors[p].only_finalized;
            if exists|q: int| q > p && #[trigger] belongs(h.processors, q, source, finalized) {
                h.loads_first(source, finalized, p + 1)
            } else if h.are_past_tip(source, finalized) {
                h.leaves_bucket(source, finalized)
            } else {
                h.action() is FetchLogs
            }
        }),
{
    h.lemma_fits();
    let b = h.earlier();
    b.lemma_fits();
    let s = b.state();
    if s.phase is Cursor && h.events.last() is Cursor {
        let processor = s.phase->Cursor_processor;
        let cursor = h.events.last()->Cursor_cursor;
        let topic1 = h.events.last()->Cursor_topic1;
        let topic2 = h.events.last()->Cursor_topic2;
        let mid = s.enlist(PState { idx: processor, cursor, topic1, topic2 });
        lemma_first(s.processors, s.source, s.finalized_only, processor + 1);
        if first_processor(s.processors, s.source, s.finalized_only, processor + 1) is None {
            lemma_due(h, mid, h.state());
        }
    }
}

/// Where the states of `s` are those of the processors that are being served, one of them is due if and only
/// if one of the processors is not past its tip.
proof fn lemma_due(h: History, s: IterationView, t: IterationView)
    requires
        h.is_valid(),
        h.state() == t,
        h.fits(t),
        s.processors == h.processors,
        s.processors.len() <= usize::MAX,
        s.tips_known(),
        s.budget <= 9,
        h.requests_of(s.source) == 9 - s.budget,
        h.tip_of(s.source, s.finalized_only) == Some(s.to_block()),
        t == if s.states.len() == 0 { s.leave_bucket() } else { s.seek_chunk() },
        h.all_loaded(s.source, s.finalized_only),
        h.knows_states(s),
    ensures
        h.are_past_tip(s.source, s.finalized_only) ==> h.leaves_bucket(s.source, s.finalized_only),
        !h.are_past_tip(s.source, s.finalized_only) && s.budget > 0 ==> h.action() is FetchLogs,
        !h.are_past_tip(s.source, s.finalized_only) && s.budget == 0 ==> h.action() == ActionView::Sleep(
            Pause { min_ms: 200, max_ms: 600 },
        ),
{
    if any_due(s.states, s.to_block()) {
        let i = choose|i: int| 0 <= i < s.states.len() && #[trigger] is_due(s.states, s.to_block(), i);
        assert(s.states[i].cursor <= s.to_block());
        assert(!h.is_past_tip(s.states[i].idx as int));
        assert(belongs(h.processors, s.states[i].idx as int, s.source, s.finalized_only));
        assert(!h.are_past_tip(s.source, s.finalized_only));
    } else {
        assert forall|p: int| #[trigger]
            belongs(h.processors, p, s.source, s.finalized_only) implies h.is_past_tip(p) by {
            if h.position(p)->0 <= s.to_block() {
                let i = choose|i: int| 0 <= i < s.states.len() && (#[trigger] s.states[i]).idx == p;
                assert(!is_due(s.states, s.to_block(), i));
            }
        }
        lemma_leaving(h, s);
    }
}

impl History {
    /// The states are those of the processors that are being served, as far as they are not past their tip.
    spec fn knows_states(self, s: IterationView) -> bool {
        &&& forall|i: int|
            0 <= i < s.states.len() ==> {
                let p = (#[trigger] s.states[i]).idx as int;
                &&& belongs(self.processors, p, s.source, s.finalized_only)
                &&& self.position(p) == Some(s.states[i].cursor as int)
            }
        &&& forall|p: int| #[trigger]
            belongs(self.processors, p, s.source, s.finalized_only) ==> self.position(p)->0 > s.to_block()
                || exists|i: int| 0 <= i < s.states.len() && (#[trigger] s.states[i]).idx == p
    }
}

/// After a pause that follows a turn of requests, logs are asked for again until all processors that are being
/// served are past their tip. If no request is left for that, a pause of its own comes before what follows.
pub proof fn law_buckets_are_served_out(h: History)
    requires
        h.is_valid(),
        h.events.len() > 0,
    ensures
        h.earlier().action() == ActionView::Sleep(Pause { min_ms: 60, max_ms: 150 }) ==> {
            exists|source: EventsSource, finalized: bool|
                {
                    &&& #[trigger] h.serves(source, finalized)
                    &&& if h.are_past_tip(source, finalized) {
                        h.leaves_bucket(source, finalized)
                    } else if h.requests_of(source) < 9 {
                        h.action() is FetchLogs
                    } else {
                        h.action() == ActionView::Sleep(Pause { min_ms: 200, max_ms: 600 })
                    }
                }
        },
        h.earlier().action() == ActionView::Sleep(Pause { min_ms: 200, max_ms: 600 }) ==> {
            exists|source: EventsSource, finalized: bool|
                {
                    &&& #[trigger] h.serves(source, finalized)
                    &&& h.requests_of(source) == 9
                    &&& h.leaves_bucket(source, finalized)
                }
        },
{
    h.lemma_fits();
    let b = h.earlier();
    b.lemma_fits();
    let s = b.state();
    if s.phase is ChunkPause {
        assert forall|i: int| 0 <= i < s.states.len() implies belongs(
            h.processors,
            (#[trigger] s.states[i]).idx as int,
            s.source,
            s.finalized_only,
        ) by {
            assert(s.in_bucket(s.states[i].idx as int));
        }
        lemma_due(h, s, h.state());
        assert(h.serves(s.source, s.finalized_only));
    }
    if s.phase is TailPause {
        lemma_leaving(h, s);
        assert(h.serves(s.source, s.finalized_only));
    }
}

/// After an answer to a request for logs, the next request follows as long as one of the processors that are
/// being served has yet to see a block of it and its topics were not asked for. When there is none, or no
/// request is left, the logs are handed out.
pub proof fn law_all_topics_are_asked_for(h: History, source: EventsSource, finalized: bool)
    requires
        h.is_valid(),
        h.after_request(),
        h.events.last() is Logs,
        h.serves(source, finalized),
    ensures
        if h.are_asked_for(source, finalized) || h.requests_of(source) == 9 {
            h.action() is ProcessEvents
        } else {
            h.action() is FetchLogs
        },
{
    h.lemma_fits();
    let b = h.earlier();
    b.lemma_fits();
    let s = b.state();
    let t = h.state();
    assert(h.answers().last().to == s.chunk.to);
    lemma_chunk_turns(s);
    if t.phase is Logs {
        lemma_fetch(h, t);
        let p = choose|p: int| #[trigger]
            belongs(h.processors, p, t.source, t.finalized_only) && h.position(p)->0 <= t.chunk.to
                && h.topics_of(p) == Some(
                (
                    t.chunk.groups[t.fetched.len() as int].topic1,
                    t.chunk.groups[t.fetched.len() as int].topic2,
                ),
            );
        assert(!h.asked_for(p)) by {
            if h.asked_for(p) {
                let g = choose|g: int|
                    0 <= g < h.answers().len() && h.is_for(#[trigger] h.answers()[g], p);
                assert(t.chunk.groups[g].topic1 == h.answers()[g].topic1);
            }
        }
    } else if h.requests_of(source) < 9 {
        assert forall|p: int| #[trigger]
            belongs(h.processors, p, source, finalized) && h.position(p)->0 <= h.answers().last().to
                implies h.asked_for(p) by {
            let i = choose|i: int| 0 <= i < t.states.len() && (#[trigger] t.states[i]).idx == p;
            assert(is_covered(t, i));
            let (g, m) = choose|g: int, m: int| is_member(t, g, m) && #[trigger] t.place(g, m) == i;
            assert(t.group_wf(g));
            assert(t.chunk.groups[g].members[m] == i);
            assert(h.is_for(h.answers()[g], p));
        }
    }
}

/// A pass that returns without an error has loaded all processors of confirmed blocks, and those of finalized
/// blocks of each source for which a request was left. And it has taken all of them past their tip, but for
/// those of a source whose nine requests are used up.
pub proof fn law_returned_pass_is_complete(h: History, source: EventsSource)
    requires
        h.is_valid(),
        h.action() == ActionView::Return(Ok(())),
    ensures
        h.is_done(source),
        h.requests_of(source) <= 9,
{
    h.lemma_fits();
    lemma_requests(h, source);
}

proof fn lemma_requests(h: History, source: EventsSource)
    requires
        h.is_valid(),
    ensures
        h.requests_of(source) <= 9,
    decreases h.events.len(),
{
    if h.events.len() > 0 {
        h.lemma_fits();
        h.earlier().lemma_fits();
        lemma_requests(h.earlier(), source);
    }
}

/// What an action is answered with: with what it asks for, or with a failure, unless it is a pause. A
/// processor cannot have processed more logs than it was handed; and if it stops in the middle of them, the
/// last log that it has processed has to name its block. A pass that has returned is answered with nothing.
pub proof fn law_actions_are_answered(h: History, event: Event)
    requires
        h.is_valid(),
    ensures
        h.state().awaits(event) <==> match h.action() {
            ActionView::FetchChainId { .. } => event is ChainId || event is Failed,
            ActionView::FetchConfirmedBlock { .. } => event is ConfirmedBlock || event is Failed,
            ActionView::FetchFinalizedBlock { .. } => event is FinalizedBlock || event is Failed,
            ActionView::LoadCursor { .. } => event is Cursor || event is Failed,
            ActionView::FetchLogs { .. } => event is Logs || event is Failed,
            ActionView::ProcessEvents { logs, .. } => event is Failed || (
            event matches Event::Processed(n) && n <= logs.len() && (0 < n < logs.len() ==> logs[n
                - 1].block_number is Some)),
            ActionView::StoreCursor { .. } => event is Stored || event is Failed,
            ActionView::Sleep(_) => event is Slept,
            ActionView::Return(_) => false,
        },
{
}

/// After a failure the pass returns with an error that says what has failed: a request to a node, an access to
/// the storage, or a processor. It returns with an error at no other time.
pub proof fn law_failures_are_returned(h: History)
    requires
        h.is_valid(),
    ensures
        h.events.len() > 0 && h.events.last() is Failed ==> h.action() == ActionView::Return(
            Err(
                match h.earlier().action() {
                    ActionView::LoadCursor { .. } => Failure::Internal,
                    ActionView::StoreCursor { .. } => Failure::Internal,
                    ActionView::ProcessEvents { .. } => Failure::Processor,
                    _ => Failure::Client,
                },
            ),
        ),
        h.action() is Return && h.action()->Return_0 is Err ==> h.events.len() > 0 && h.events.last() is Failed,
{
    h.lemma_fits();
    reveal(after);
}

} // verus!
