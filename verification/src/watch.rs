//! The watcher: what it starts from, which processors it serves, and its loop.
use vstd::prelude::*;

use crate::iteration::{IterationView, LoopIteration, ProcessorInfo};
use crate::pause::{backoff, backoff_pause, law_backoff_in_milliseconds, Pause};
use crate::types::{
    EventsSource, L1BatchNumber, L2ChainId, PriorityOpId, ProtocolSemanticVersion, SettlementLayer, H256,
};

verus! {

/// Why the watcher cannot start.
#[derive(Clone, Copy, Debug, PartialEq, Eq, Structural)]
pub enum InitializeError {
    /// No protocol version is stored, not even that of the genesis.
    NoGenesisVersion,
}

impl InitializeError {
    /// The error in words.
    pub fn message(&self) -> (message: &'static str)
        ensures
            message@ == "expected at least one (genesis) version to be present in DB"@,
    {
        match self {
            InitializeError::NoGenesisVersion => "expected at least one (genesis) version to be present in DB",
        }
    }
}

/// What the watcher starts from.
#[derive(Debug)]
pub struct EthWatchState {
    pub last_seen_protocol_version: ProtocolSemanticVersion,
    pub next_expected_priority_id: PriorityOpId,
    pub chain_batch_root_number_lower_bound: L1BatchNumber,
    /// Executed batches with their roots, in the order of the leaves of the batch tree.
    pub batch_leaves: Vec<(L1BatchNumber, H256)>,
}

/// An event processor, with what it starts from.
#[derive(Debug)]
pub enum EventProcessorSeed {
    PriorityOps { next_expected_priority_id: PriorityOpId },
    DecentralizedUpgrades { last_seen_protocol_version: ProtocolSemanticVersion },
    GatewayMigration { chain_id: L2ChainId },
    BatchRoot {
        next_batch_number_lower_bound: L1BatchNumber,
        batch_leaves: Vec<(L1BatchNumber, H256)>,
        chain_id: L2ChainId,
    },
    InteropRoot { source: EventsSource, chain_id: L2ChainId },
}

/// A client that an event processor works with.
#[derive(Clone, Copy, Debug, PartialEq, Eq, Structural)]
pub struct ProcessorClient {
    /// Chain whose node the client talks to.
    pub source: EventsSource,
    /// Whether the client has to offer what only nodes of the network itself do, or the base client will do.
    pub extended: bool,
}

impl EventProcessorSeed {
    /// The clients that the processor is given, in this order: the settlement layer's for priority
    /// operations; the settlement layer's and then the L1's for upgrades; none for migrations; and the
    /// settlement layer's extended one for batch and interop roots.
    pub open spec fn clients(self) -> Seq<ProcessorClient> {
        match self {
            EventProcessorSeed::PriorityOps { .. } => seq![
                ProcessorClient { source: EventsSource::SL, extended: false },
            ],
            EventProcessorSeed::DecentralizedUpgrades { .. } => seq![
                ProcessorClient { source: EventsSource::SL, extended: false },
                ProcessorClient { source: EventsSource::L1, extended: false },
            ],
            EventProcessorSeed::GatewayMigration { .. } => Seq::empty(),
            EventProcessorSeed::BatchRoot { .. } => seq![
                ProcessorClient { source: EventsSource::SL, extended: true },
            ],
            EventProcessorSeed::InteropRoot { .. } => seq![
                ProcessorClient { source: EventsSource::SL, extended: true },
            ],
        }
    }

    /// The clients that the processor is to be given: see [`EventProcessorSeed::clients`].
    pub fn needed_clients(&self) -> (clients: Vec<ProcessorClient>)
        ensures
            clients@ == self.clients(),
            forall|i: int|
                0 <= i < clients@.len() && (#[trigger] clients@[i]).extended ==> clients@[i].source
                    == EventsSource::SL,
    {
        let sl = ProcessorClient { source: EventsSource::SL, extended: false };
        let sl_extended = ProcessorClient { source: EventsSource::SL, extended: true };
        let l1 = ProcessorClient { source: EventsSource::L1, extended: false };
        let mut clients: Vec<ProcessorClient> = Vec::new();
        match self {
            EventProcessorSeed::PriorityOps { .. } => {
                clients.push(sl);
            },
            EventProcessorSeed::DecentralizedUpgrades { .. } => {
                clients.push(sl);
                clients.push(l1);
            },
            EventProcessorSeed::GatewayMigration { .. } => {},
            EventProcessorSeed::BatchRoot { .. } => {
                clients.push(sl_extended);
            },
            EventProcessorSeed::InteropRoot { .. } => {
                clients.push(sl_extended);
            },
        }
        assert(clients@ =~= self.clients());
        clients
    }
}

/// The processors that every watcher serves come first; those of batch and interop roots are served only
/// where the chain settles on a gateway.
pub open spec fn seeds_for(
    state: EthWatchState,
    sl_layer: Option<SettlementLayer>,
    chain_id: L2ChainId,
) -> Seq<EventProcessorSeed> {
    let always = seq![
        EventProcessorSeed::PriorityOps {
            next_expected_priority_id: state.next_expected_priority_id,
        },
        EventProcessorSeed::DecentralizedUpgrades {
            last_seen_protocol_version: state.last_seen_protocol_version,
        },
        EventProcessorSeed::GatewayMigration { chain_id },
    ];
    if sl_layer matches Some(SettlementLayer::Gateway(_)) {
        always + seq![
            EventProcessorSeed::BatchRoot {
                next_batch_number_lower_bound: state.chain_batch_root_number_lower_bound,
                batch_leaves: state.batch_leaves,
                chain_id,
            },
            EventProcessorSeed::InteropRoot { source: EventsSource::SL, chain_id },
        ]
    } else {
        always
    }
}

/// The processors of a watcher, with the clients that each of them is given: the first three are always the
/// same, and the last two are there only on a gateway, where just one of them is for interop roots, and that
/// one for the settlement layer's.
pub proof fn law_processors_and_their_clients(
    state: EthWatchState,
    sl_layer: Option<SettlementLayer>,
    chain_id: L2ChainId,
)
    ensures
        ({
            let seeds = seeds_for(state, sl_layer, chain_id);
            let sl = ProcessorClient { source: EventsSource::SL, extended: false };
            let sl_extended = ProcessorClient { source: EventsSource::SL, extended: true };
            let l1 = ProcessorClient { source: EventsSource::L1, extended: false };
            let on_gateway = sl_layer is Some && sl_layer->0 is Gateway;
            &&& seeds.len() == if on_gateway { 5nat } else { 3nat }
            &&& seeds[0] == EventProcessorSeed::PriorityOps {
                next_expected_priority_id: state.next_expected_priority_id,
            }
            &&& seeds[0].clients() == seq![sl]
            &&& seeds[1] == EventProcessorSeed::DecentralizedUpgrades {
                last_seen_protocol_version: state.last_seen_protocol_version,
            }
            &&& seeds[1].clients() == seq![sl, l1]
            &&& seeds[2] == EventProcessorSeed::GatewayMigration { chain_id }
            &&& seeds[2].clients() == Seq::<ProcessorClient>::empty()
            &&& on_gateway ==> {
                &&& seeds[3] == EventProcessorSeed::BatchRoot {
                    next_batch_number_lower_bound: state.chain_batch_root_number_lower_bound,
                    batch_leaves: state.batch_leaves,
                    chain_id,
                }
                &&& seeds[3].clients() == seq![sl_extended]
                &&& seeds[4] == EventProcessorSeed::InteropRoot { source: EventsSource::SL, chain_id }
                &&& seeds[4].clients() == seq![sl_extended]
            }
            &&& forall|i: int|
                0 <= i < seeds.len() && (#[trigger] seeds[i]) is InteropRoot ==> on_gateway && i == 4
        }),
{
}

/// How a pass over the sources came out.
#[derive(Clone, Copy, Debug, PartialEq, Eq, Structural)]
pub enum IterationOutcome {
    /// Everything went fine.
    Done,
    /// It failed for good.
    Fatal,
    /// It failed, but may succeed another time.
    Transient,
}

/// What came of an action of the watcher.
#[derive(Clone, Copy, Debug, PartialEq, Eq, Structural)]
pub enum RunEvent {
    /// Whether the watcher has been asked to stop.
    StopFlag(bool),
    /// It is time to poll.
    Tick,
    /// The request to stop has changed.
    StopChanged,
    /// The storage is connected.
    Connected,
    /// The storage could not be connected.
    ConnectFailed,
    /// A pass is over.
    Iterated(IterationOutcome),
    /// The pause is over.
    Slept,
}

impl RunEvent {
    /// The event is counted as a poll: it is the end of a pass that went fine.
    pub open spec fn is_poll(self) -> bool {
        self == RunEvent::Iterated(IterationOutcome::Done)
    }

    /// Whether the event is to be counted as a poll.
    pub fn counts_as_poll(&self) -> (counts: bool)
        ensures
            counts == (*self == RunEvent::Iterated(IterationOutcome::Done)),
            counts == self.is_poll(),
    {
        matches!(self, RunEvent::Iterated(IterationOutcome::Done))
    }
}

/// Why the watcher gave up.
#[derive(Clone, Copy, Debug, PartialEq, Eq, Structural)]
pub enum RunError {
    /// The storage could not be connected.
    Connection,
    /// A pass failed for good.
    Fatal,
}

/// What the watcher is to do next.
#[derive(Clone, Copy, Debug, PartialEq, Eq)]
pub enum RunAction {
    /// Look whether the watcher has been asked to stop.
    CheckStop,
    /// Wait until it is time to poll, or the request to stop changes.
    AwaitTick,
    /// Connect to the storage.
    Connect,
    /// Make a pass over the sources.
    Iterate,
    /// Wait.
    Sleep(Pause),
    /// Stop.
    Return(Result<(), RunError>),
}

/// What the watcher waits for.
#[derive(Clone, Copy, Debug, PartialEq, Eq, Structural)]
pub enum RunPhase {
    CheckStop,
    AwaitTick,
    Connect,
    Iterate,
    Backoff,
    Stopped,
    GaveUp(RunError),
}

/// The watcher's loop: what it waits for, and how many passes in a row have failed.
#[derive(Clone, Copy, Debug, PartialEq, Eq, Structural)]
pub struct RunState {
    pub phase: RunPhase,
    pub attempt: u32,
}

/// One more failed pass, as far as they are counted.
pub open spec fn one_more(attempt: u32) -> u32 {
    if attempt < u32::MAX {
        (attempt + 1) as u32
    } else {
        attempt
    }
}

impl RunState {
    /// The watcher waits for such an event.
    pub open spec fn awaits(self, event: RunEvent) -> bool {
        match event {
            RunEvent::StopFlag(_) => self.phase is CheckStop,
            RunEvent::Tick => self.phase is AwaitTick,
            RunEvent::StopChanged => self.phase is AwaitTick,
            RunEvent::Connected => self.phase is Connect,
            RunEvent::ConnectFailed => self.phase is Connect,
            RunEvent::Iterated(_) => self.phase is Iterate,
            RunEvent::Slept => self.phase is Backoff,
        }
    }

    /// The state after an event. A pass that went fine is followed by the next look at the request to
    /// stop; so is one that may succeed another time, after a backoff; one that failed for good ends the
    /// loop.
    pub open spec fn next(self, event: RunEvent) -> RunState {
        match event {
            RunEvent::StopFlag(stop) => RunState {
                phase: if stop { RunPhase::Stopped } else { RunPhase::AwaitTick },
                ..self
            },
            RunEvent::Tick => RunState { phase: RunPhase::Connect, ..self },
            RunEvent::StopChanged => RunState { phase: RunPhase::Stopped, ..self },
            RunEvent::Connected => RunState { phase: RunPhase::Iterate, ..self },
            RunEvent::ConnectFailed => RunState { phase: RunPhase::GaveUp(RunError::Connection), ..self },
            RunEvent::Iterated(IterationOutcome::Done) => RunState {
                phase: RunPhase::CheckStop,
                attempt: 0,
            },
            RunEvent::Iterated(IterationOutcome::Fatal) => RunState {
                phase: RunPhase::GaveUp(RunError::Fatal),
                ..self
            },
            RunEvent::Iterated(IterationOutcome::Transient) => RunState {
                phase: RunPhase::Backoff,
                ..self
            },
            RunEvent::Slept => RunState { phase: RunPhase::CheckStop, attempt: one_more(self.attempt) },
        }
    }

    /// The action that the watcher waits for.
    pub open spec fn action(self) -> RunAction {
        match self.phase {
            RunPhase::CheckStop => RunAction::CheckStop,
            RunPhase::AwaitTick => RunAction::AwaitTick,
            RunPhase::Connect => RunAction::Connect,
            RunPhase::Iterate => RunAction::Iterate,
            RunPhase::Backoff => RunAction::Sleep(backoff(self.attempt as nat)),
            RunPhase::Stopped => RunAction::Return(Ok(())),
            RunPhase::GaveUp(error) => RunAction::Return(Err(error)),
        }
    }
}

/// Ethereum watcher component.
#[derive(Debug)]
pub struct EthWatch {
    event_expiration_blocks: u64,
    state: RunState,
}

impl EthWatch {
    /// Age in blocks from which events are no longer looked for, where nothing else is stored.
    pub closed spec fn event_expiration_blocks(self) -> u64 {
        self.event_expiration_blocks
    }

    /// Where the watcher stands in its loop.
    pub closed spec fn run_state(self) -> RunState {
        self.state
    }

    /// Makes a watcher, and says which event processors it is to serve, in which order, and what each of
    /// them starts from.
    pub fn new(
        state: EthWatchState,
        sl_layer: Option<SettlementLayer>,
        chain_id: L2ChainId,
        event_expiration_blocks: u64,
    ) -> (made: (EthWatch, Vec<EventProcessorSeed>))
        ensures
            made.0.event_expiration_blocks() == event_expiration_blocks,
            made.0.run_state() == (RunState { phase: RunPhase::CheckStop, attempt: 0 }),
            made.1@ == seeds_for(state, sl_layer, chain_id),
    {
        let ghost initial = state;
        let mut seeds: Vec<EventProcessorSeed> = Vec::new();
        seeds.push(
            EventProcessorSeed::PriorityOps {
                next_expected_priority_id: state.next_expected_priority_id,
            },
        );
        seeds.push(
            EventProcessorSeed::DecentralizedUpgrades {
                last_seen_protocol_version: state.last_seen_protocol_version,
            },
        );
        seeds.push(EventProcessorSeed::GatewayMigration { chain_id });
        if let Some(SettlementLayer::Gateway(_)) = sl_layer {
            seeds.push(
                EventProcessorSeed::BatchRoot {
                    next_batch_number_lower_bound: state.chain_batch_root_number_lower_bound,
                    batch_leaves: state.batch_leaves,
                    chain_id,
                },
            );
            seeds.push(EventProcessorSeed::InteropRoot { source: EventsSource::SL, chain_id });
        }
        assert(seeds@ =~= seeds_for(initial, sl_layer, chain_id));
        let watch = EthWatch {
            event_expiration_blocks,
            state: RunState { phase: RunPhase::CheckStop, attempt: 0 },
        };
        (watch, seeds)
    }

    /// The priority operation that is expected next: the one after the last that is stored, or the first.
    fn next_expected_priority_id(last_priority_id: Option<PriorityOpId>) -> (next: PriorityOpId)
        requires
            last_priority_id matches Some(last) ==> last.0 < u64::MAX,
        ensures
            next.0 == match last_priority_id {
                Some(last) => last.0 + 1,
                None => 0int,
            },
    {
        match last_priority_id {
            Some(last) => PriorityOpId(last.0 + 1),
            None => PriorityOpId(0),
        }
    }

    /// The protocol version that the watcher starts from. There has to be one: that of the genesis at
    /// least.
    pub fn last_seen_protocol_version(latest: Option<ProtocolSemanticVersion>) -> (version: Result<
        ProtocolSemanticVersion,
        InitializeError,
    >)
        ensures
            version == match latest {
                Some(latest) => Ok::<ProtocolSemanticVersion, InitializeError>(latest),
                None => Err(InitializeError::NoGenesisVersion),
            },
    {
        match latest {
            Some(latest) => Ok(latest),
            None => Err(InitializeError::NoGenesisVersion),
        }
    }

    /// What the watcher starts from, given what is stored: the last priority operation, the latest
    /// protocol version, and the roots of the batches that were executed on the settlement layer.
    pub fn initialize_state(
        last_priority_id: Option<PriorityOpId>,
        latest_version: Option<ProtocolSemanticVersion>,
        batch_hashes: Vec<(L1BatchNumber, H256)>,
    ) -> (state: Result<EthWatchState, InitializeError>)
        requires
            last_priority_id matches Some(last) ==> last.0 < u64::MAX,
            latest_version is Some && batch_hashes.len() > 0 ==> batch_hashes@.last().0.0 < u32::MAX,
        ensures
            match state {
                Ok(state) => {
                    &&& latest_version == Some(state.last_seen_protocol_version)
                    &&& state.next_expected_priority_id.0 == match last_priority_id {
                        Some(last) => last.0 + 1,
                        None => 0int,
                    }
                    &&& state.chain_batch_root_number_lower_bound.0 == if batch_hashes.len() > 0 {
                        batch_hashes@.last().0.0 + 1
                    } else {
                        0int
                    }
                    &&& state.batch_leaves@ == batch_hashes@
                },
                Err(error) => latest_version is None && error == InitializeError::NoGenesisVersion,
            },
    {
        let last_seen_protocol_version = match Self::last_seen_protocol_version(latest_version) {
            Ok(version) => version,
            Err(error) => {
                return Err(error);
            },
        };
        let chain_batch_root_number_lower_bound = if batch_hashes.len() > 0 {
            L1BatchNumber(batch_hashes[batch_hashes.len() - 1].0.0 + 1)
        } else {
            L1BatchNumber(0)
        };
        Ok(
            EthWatchState {
                last_seen_protocol_version,
                next_expected_priority_id: Self::next_expected_priority_id(last_priority_id),
                chain_batch_root_number_lower_bound,
                batch_leaves: batch_hashes,
            },
        )
    }

    /// What the watcher is to do next.
    pub fn run_action(&self) -> (action: RunAction)
        ensures
            action == self.run_state().action(),
            action matches RunAction::Sleep(pause) ==> pause.wf(),
    {
        match self.state.phase {
            RunPhase::CheckStop => RunAction::CheckStop,
            RunPhase::AwaitTick => RunAction::AwaitTick,
            RunPhase::Connect => RunAction::Connect,
            RunPhase::Iterate => RunAction::Iterate,
            RunPhase::Backoff => RunAction::Sleep(backoff_pause(self.state.attempt as u64)),
            RunPhase::Stopped => RunAction::Return(Ok(())),
            RunPhase::GaveUp(error) => RunAction::Return(Err(error)),
        }
    }

    /// Whether the watcher waits for such an event: see [`RunState::awaits`].
    pub fn accepts(&self, event: &RunEvent) -> (accepted: bool)
        ensures
            accepted == self.run_state().awaits(*event),
    {
        match event {
            RunEvent::StopFlag(_) => matches!(self.state.phase, RunPhase::CheckStop),
            RunEvent::Tick | RunEvent::StopChanged => matches!(self.state.phase, RunPhase::AwaitTick),
            RunEvent::Connected | RunEvent::ConnectFailed => matches!(self.state.phase, RunPhase::Connect),
            RunEvent::Iterated(_) => matches!(self.state.phase, RunPhase::Iterate),
            RunEvent::Slept => matches!(self.state.phase, RunPhase::Backoff),
        }
    }

    /// One turn of the watcher's loop: goes on from what came of the action.
    pub fn run(&mut self, event: RunEvent)
        requires
            old(self).run_state().awaits(event),
        ensures
            final(self).run_state() == old(self).run_state().next(event),
            final(self).event_expiration_blocks() == old(self).event_expiration_blocks(),
    {
        match event {
            RunEvent::StopFlag(stop) => {
                self.state.phase = if stop {
                    RunPhase::Stopped
                } else {
                    RunPhase::AwaitTick
                };
            },
            RunEvent::Tick => {
                self.state.phase = RunPhase::Connect;
            },
            RunEvent::StopChanged => {
                self.state.phase = RunPhase::Stopped;
            },
            RunEvent::Connected => {
                self.state.phase = RunPhase::Iterate;
            },
            RunEvent::ConnectFailed => {
                self.state.phase = RunPhase::GaveUp(RunError::Connection);
            },
            RunEvent::Iterated(IterationOutcome::Done) => {
                self.state.phase = RunPhase::CheckStop;
                self.state.attempt = 0;
            },
            RunEvent::Iterated(IterationOutcome::Fatal) => {
                self.state.phase = RunPhase::GaveUp(RunError::Fatal);
            },
            RunEvent::Iterated(IterationOutcome::Transient) => {
                self.state.phase = RunPhase::Backoff;
            },
            RunEvent::Slept => {
                self.state.phase = RunPhase::CheckStop;
                self.state.attempt = self.state.attempt.saturating_add(1);
            },
        }
    }

    /// Starts a pass over the events of `processors`.
    pub fn loop_iteration(&self, processors: Vec<ProcessorInfo>) -> (iteration: LoopIteration)
        ensures
            iteration@ == IterationView::begin(processors@, self.event_expiration_blocks()),
            iteration@.wf(),
    {
        LoopIteration::begin(processors, self.event_expiration_blocks)
    }
}

/// The state of a watcher after a sequence of events.
pub open spec fn run_after(events: Seq<RunEvent>) -> RunState
    decreases events.len(),
{
    if events.len() == 0 {
        RunState { phase: RunPhase::CheckStop, attempt: 0 }
    } else {
        run_after(events.drop_last()).next(events.last())
    }
}

/// Each of the events is waited for when it comes.
pub open spec fn is_watch(events: Seq<RunEvent>) -> bool
    decreases events.len(),
{
    events.len() == 0 || {
        &&& is_watch(events.drop_last())
        &&& run_after(events.drop_last()).awaits(events.last())
    }
}

/// Passes that have failed since the last one that went fine.
pub open spec fn failures_in_a_row(events: Seq<RunEvent>) -> nat
    decreases events.len(),
{
    if events.len() == 0 {
        0
    } else {
        match events.last() {
            RunEvent::Iterated(IterationOutcome::Done) => 0,
            RunEvent::Iterated(IterationOutcome::Transient) => failures_in_a_row(events.drop_last()) + 1,
            _ => failures_in_a_row(events.drop_last()),
        }
    }
}

proof fn lemma_attempt_counts_failures(events: Seq<RunEvent>)
    requires
        is_watch(events),
    ensures
        ({
            let s = run_after(events);
            let failures = failures_in_a_row(events);
            let counted = if s.phase is Backoff { failures - 1 } else { failures as int };
            &&& s.phase is Backoff ==> failures > 0
            &&& s.attempt == if counted <= u32::MAX { counted } else { u32::MAX as int }
        }),
    decreases events.len(),
{
    if events.len() > 0 {
        lemma_attempt_counts_failures(events.drop_last());
    }
}

/// After a failed pass the watcher waits, and the longer, the more passes have failed since the last one
/// that went fine: a pass that goes fine resets the backoff.
pub proof fn law_backoff_follows_failures(events: Seq<RunEvent>)
    requires
        is_watch(events),
    ensures
        run_after(events).action() matches RunAction::Sleep(pause) ==> failures_in_a_row(events) > 0
            && pause == backoff((failures_in_a_row(events) - 1) as nat),
{
    lemma_attempt_counts_failures(events);
}

/// The watcher returns without an error only when it was asked to stop, and with one only when the
/// storage could not be connected or a pass failed for good; and in these cases it does return. A pass
/// that may succeed another time never ends it.
pub proof fn law_watcher_returns_when_told(s: RunState, event: RunEvent)
    requires
        s.awaits(event),
    ensures
        s.next(event).action() == RunAction::Return(Ok(())) <==> event == RunEvent::StopFlag(true)
            || event == RunEvent::StopChanged,
        s.next(event).action() == RunAction::Return(Err(RunError::Connection)) <==> event
            == RunEvent::ConnectFailed,
        s.next(event).action() == RunAction::Return(Err(RunError::Fatal)) <==> event
            == RunEvent::Iterated(IterationOutcome::Fatal),
        forall|later: RunEvent| s.next(event).action() is Return ==> !s.next(event).awaits(later),
{
}

/// Every pass comes right after the storage was connected, that after it was time to poll, and that after
/// the watcher has seen that it is not asked to stop.
pub proof fn law_passes_are_polled(events: Seq<RunEvent>)
    requires
        is_watch(events),
        run_after(events).action() is Iterate,
    ensures
        events.len() >= 3,
        events[events.len() - 1] == RunEvent::Connected,
        events[events.len() - 2] == RunEvent::Tick,
        events[events.len() - 3] == RunEvent::StopFlag(false),
{
    reveal_with_fuel(is_watch, 4);
    reveal_with_fuel(run_after, 4);
    let one = events.drop_last();
    let two = one.drop_last();
    assert(run_after(one).phase is Connect);
    assert(run_after(two).phase is AwaitTick);
    assert(two.len() > 0);
}

/// Polls that are counted over a sequence of events.
pub open spec fn polls_counted(events: Seq<RunEvent>) -> nat
    decreases events.len(),
{
    if events.len() == 0 {
        0
    } else {
        polls_counted(events.drop_last()) + if events.last().is_poll() {
            1nat
        } else {
            0
        }
    }
}

/// Passes that the watcher has made and that came out as `outcome`.
pub open spec fn passes_with(events: Seq<RunEvent>, outcome: IterationOutcome) -> nat
    decreases events.len(),
{
    if events.len() == 0 {
        0
    } else {
        let asked = run_after(events.drop_last()).action() is Iterate;
        passes_with(events.drop_last(), outcome) + if asked && events.last() == RunEvent::Iterated(outcome) {
            1nat
        } else {
            0
        }
    }
}

/// How often `event` occurs.
pub open spec fn occurrences(events: Seq<RunEvent>, event: RunEvent) -> nat
    decreases events.len(),
{
    if events.len() == 0 {
        0
    } else {
        occurrences(events.drop_last(), event) + if events.last() == event {
            1nat
        } else {
            0
        }
    }
}

/// At all times the polls that were counted are the passes that went fine. Every pass, however it came out
/// or if it is still going on, has a connection of its own, and every connection, made or failed or still
/// being made, a tick of its own.
pub proof fn law_polls_are_counted(events: Seq<RunEvent>)
    requires
        is_watch(events),
    ensures
        polls_counted(events) == passes_with(events, IterationOutcome::Done),
        occurrences(events, RunEvent::Connected) == passes_with(events, IterationOutcome::Done)
            + passes_with(events, IterationOutcome::Fatal) + passes_with(
            events,
            IterationOutcome::Transient,
        ) + if run_after(events).action() is Iterate { 1nat } else { 0 },
        occurrences(events, RunEvent::Tick) == occurrences(events, RunEvent::Connected) + occurrences(
            events,
            RunEvent::ConnectFailed,
        ) + if run_after(events).action() is Connect { 1nat } else { 0 },
    decreases events.len(),
{
    if events.len() > 0 {
        law_polls_are_counted(events.drop_last());
    }
}

/// What the watcher's actions are answered with.
pub proof fn law_watcher_is_answered(events: Seq<RunEvent>, event: RunEvent)
    requires
        is_watch(events),
    ensures
        run_after(events).awaits(event) <==> match run_after(events).action() {
            RunAction::CheckStop => event is StopFlag,
            RunAction::AwaitTick => event is Tick || event is StopChanged,
            RunAction::Connect => event is Connected || event is ConnectFailed,
            RunAction::Iterate => event is Iterated,
            RunAction::Sleep(_) => event is Slept,
            RunAction::Return(_) => false,
        },
{
}

/// What the watcher does after each event. It looks whether it is asked to stop, waits for the time to poll,
/// connects, and makes a pass; then it starts over, after a pause if the pass has failed but may succeed
/// another time. It stops when it is asked to, and gives up if it cannot connect or if a pass has failed for
/// good. The first of the passes that fail in a row is followed by a pause of 200 ms, each further one by twice
/// the pause before, up to 12.8 s, and up to 199 ms are added.
pub proof fn law_watcher_goes_on(events: Seq<RunEvent>)
    requires
        is_watch(events),
    ensures
        events.len() == 0 ==> run_after(events).action() == RunAction::CheckStop,
        events.len() > 0 ==> match events.last() {
            RunEvent::StopFlag(stop) => run_after(events).action() == if stop {
                RunAction::Return(Ok(()))
            } else {
                RunAction::AwaitTick
            },
            RunEvent::Tick => run_after(events).action() == RunAction::Connect,
            RunEvent::StopChanged => run_after(events).action() == RunAction::Return(Ok(())),
            RunEvent::Connected => run_after(events).action() == RunAction::Iterate,
            RunEvent::ConnectFailed => run_after(events).action() == RunAction::Return(
                Err(RunError::Connection),
            ),
            RunEvent::Iterated(IterationOutcome::Done) => run_after(events).action()
                == RunAction::CheckStop,
            RunEvent::Iterated(IterationOutcome::Fatal) => run_after(events).action()
                == RunAction::Return(Err(RunError::Fatal)),
            RunEvent::Iterated(IterationOutcome::Transient) => {
                &&& failures_in_a_row(events) > 0
                &&& run_after(events).action() matches RunAction::Sleep(pause) && {
                    &&& pause.min_ms == doubled(failures_in_a_row(events))
                    &&& pause.max_ms == pause.min_ms + 199
                }
            },
            RunEvent::Slept => run_after(events).action() == RunAction::CheckStop,
        },
{
    if events.len() > 0 {
        lemma_attempt_counts_failures(events);
        lemma_attempt_counts_failures(events.drop_last());
        if events.last() == RunEvent::Iterated(IterationOutcome::Transient) {
            law_backoff_follows_failures(events);
            let earlier = (failures_in_a_row(events) - 1) as nat;
            lemma_doubled(earlier);
            law_backoff_in_milliseconds(earlier);
        }
    }
}

/// 200, doubled for each failure after the first, up to 12800.
pub open spec fn doubled(failures: nat) -> int
    decreases failures,
{
    if failures <= 1 {
        200
    } else if doubled((failures - 1) as nat) < 12_800 {
        2 * doubled((failures - 1) as nat)
    } else {
        12_800
    }
}

proof fn lemma_doubled(earlier: nat)
    ensures
        backoff(earlier).min_ms == doubled(earlier + 1),
    decreases earlier,
{
    law_backoff_in_milliseconds(earlier);
    if earlier > 0 {
        lemma_doubled((earlier - 1) as nat);
        law_backoff_in_milliseconds((earlier - 1) as nat);
    }
}

/// A processor of priority operations works with the client of the settlement layer, one of upgrades with this
/// and with that of the L1, one of migrations with none, and one of batch or interop roots with the extended
/// client of the settlement layer.
pub proof fn law_clients_of_processors(seed: EventProcessorSeed, client: ProcessorClient)
    ensures
        seed.clients().len() == match seed {
            EventProcessorSeed::DecentralizedUpgrades { .. } => 2nat,
            EventProcessorSeed::GatewayMigration { .. } => 0,
            _ => 1,
        },
        seed.clients().contains(client) <==> match client.source {
            EventsSource::L1 => seed is DecentralizedUpgrades && !client.extended,
            EventsSource::SL => if client.extended {
                seed is BatchRoot || seed is InteropRoot
            } else {
                seed is PriorityOps || seed is DecentralizedUpgrades
            },
        },
        seed is DecentralizedUpgrades ==> seed.clients()[0].source is SL,
{
    let clients = seed.clients();
    if clients.len() > 0 {
        assert(clients.contains(clients[0]));
    }
    if clients.len() > 1 {
        assert(clients.contains(clients[1]));
    }
}

} // verus!
