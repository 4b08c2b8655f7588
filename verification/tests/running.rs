use eth_watch::pause::{backoff_pause, Pause};
use eth_watch::retry::{retry_with_backoff, retry_with_backoff_no_state, RetryStep};
use eth_watch::types::{
    EventsSource, L1BatchNumber, L2ChainId, PriorityOpId, ProtocolSemanticVersion, SettlementLayer, H256,
};
use eth_watch::watch::{
    EthWatch, EthWatchState, EventProcessorSeed, InitializeError, IterationOutcome, ProcessorClient, RunAction,
    RunError, RunEvent,
};

fn version() -> ProtocolSemanticVersion {
    ProtocolSemanticVersion { minor: 28, patch: 1 }
}

fn root(n: u128) -> H256 {
    H256 { hi: n, lo: n }
}

fn initial() -> EthWatchState {
    let batches = vec![(L1BatchNumber(3), root(3)), (L1BatchNumber(4), root(4))];
    EthWatch::initialize_state(Some(PriorityOpId(11)), Some(version()), batches).unwrap()
}

fn watch() -> EthWatch {
    EthWatch::new(initial(), None, L2ChainId(270), 50_000).0
}

fn step(watch: &mut EthWatch, event: RunEvent) {
    assert!(watch.accepts(&event));
    watch.run(event);
}

#[test]
fn backoff_doubles_up_to_its_cap() {
    let shortest: Vec<u64> = (0..9).map(|failures| backoff_pause(failures).min_ms).collect();
    assert_eq!(shortest, vec![200, 400, 800, 1_600, 3_200, 6_400, 12_800, 12_800, 12_800]);
    assert_eq!(backoff_pause(0).max_ms, 399);
    assert_eq!(backoff_pause(3).max_ms, 1_799);
    assert_eq!(backoff_pause(u64::MAX), Pause { min_ms: 12_800, max_ms: 12_999 });
}

#[test]
fn drawn_pauses_lie_in_their_range() {
    let pause = Pause { min_ms: 60, max_ms: 150 };
    let drawn: Vec<u64> = (0..2_000).map(|_| pause.draw_ms()).collect();
    assert!(drawn.iter().all(|ms| 60 <= *ms && *ms <= 150));
    assert!(drawn.iter().any(|ms| *ms != 60));
    assert!(drawn.iter().any(|ms| *ms != 150));
    assert_eq!(Pause { min_ms: 7, max_ms: 7 }.draw_ms(), 7);
}

#[test]
fn success_is_returned_at_once() {
    let mut attempt = 2;
    let step: RetryStep<u8, &str> = retry_with_backoff(&mut attempt, Ok(9), 5);
    assert!(matches!(step, RetryStep::Return(Ok(9))));
    assert_eq!(attempt, 2);
}

#[test]
fn failures_are_retried_with_growing_pauses() {
    let mut attempt = 0;
    let mut pauses: Vec<u64> = Vec::new();
    loop {
        let outcome: Result<u8, usize> = Err(pauses.len());
        match retry_with_backoff_no_state(&mut attempt, outcome, 5) {
            RetryStep::Retry { error, pause } => {
                assert_eq!(error, pauses.len());
                pauses.push(pause.min_ms);
            }
            RetryStep::Return(result) => {
                assert_eq!(result, Err(5));
                break;
            }
        }
    }
    assert_eq!(pauses, vec![200, 400, 800, 1_600, 3_200]);
    assert_eq!(attempt, 5);
}

#[test]
fn no_retries_means_one_attempt() {
    let mut attempt = 0;
    let step: RetryStep<u8, &str> = retry_with_backoff(&mut attempt, Err("no"), 0);
    assert!(matches!(step, RetryStep::Return(Err("no"))));
}

#[test]
fn state_follows_what_is_stored() {
    let state = initial();
    assert_eq!(state.next_expected_priority_id, PriorityOpId(12));
    assert_eq!(state.last_seen_protocol_version, version());
    assert_eq!(state.chain_batch_root_number_lower_bound, L1BatchNumber(5));
    assert_eq!(state.batch_leaves, vec![(L1BatchNumber(3), root(3)), (L1BatchNumber(4), root(4))]);
}

#[test]
fn state_of_a_fresh_node() {
    let state = EthWatch::initialize_state(None, Some(version()), Vec::new()).unwrap();
    assert_eq!(state.next_expected_priority_id, PriorityOpId(0));
    assert_eq!(state.chain_batch_root_number_lower_bound, L1BatchNumber(0));
    assert!(state.batch_leaves.is_empty());
}

#[test]
fn genesis_version_is_needed() {
    let error = EthWatch::initialize_state(None, None, Vec::new()).unwrap_err();
    assert_eq!(error, InitializeError::NoGenesisVersion);
    assert_eq!(error.message(), "expected at least one (genesis) version to be present in DB");
}

#[test]
fn processors_without_a_gateway() {
    let settled = Some(SettlementLayer::L1(1));
    for layer in [None, settled] {
        let (_, seeds) = EthWatch::new(initial(), layer, L2ChainId(270), 50_000);
        assert_eq!(seeds.len(), 3);
        assert!(matches!(
            seeds[0],
            EventProcessorSeed::PriorityOps { next_expected_priority_id: PriorityOpId(12) }
        ));
        assert!(matches!(seeds[1], EventProcessorSeed::DecentralizedUpgrades { .. }));
        assert!(matches!(seeds[2], EventProcessorSeed::GatewayMigration { chain_id: L2ChainId(270) }));
    }
}

#[test]
fn processors_with_a_gateway() {
    let layer = Some(SettlementLayer::Gateway(506));
    let (_, seeds) = EthWatch::new(initial(), layer, L2ChainId(270), 50_000);
    assert_eq!(seeds.len(), 5);
    match &seeds[3] {
        EventProcessorSeed::BatchRoot { next_batch_number_lower_bound, batch_leaves, chain_id } => {
            assert_eq!(*next_batch_number_lower_bound, L1BatchNumber(5));
            assert_eq!(batch_leaves.len(), 2);
            assert_eq!(*chain_id, L2ChainId(270));
        }
        other => panic!("unexpected {:?}", other),
    }
    assert!(matches!(seeds[4], EventProcessorSeed::InteropRoot { source: EventsSource::SL, .. }));
}

#[test]
fn watcher_polls_until_it_is_stopped() {
    let mut watch = watch();
    assert_eq!(watch.run_action(), RunAction::CheckStop);
    assert!(!watch.accepts(&RunEvent::Tick));
    step(&mut watch, RunEvent::StopFlag(false));
    assert_eq!(watch.run_action(), RunAction::AwaitTick);
    step(&mut watch, RunEvent::Tick);
    assert_eq!(watch.run_action(), RunAction::Connect);
    step(&mut watch, RunEvent::Connected);
    assert_eq!(watch.run_action(), RunAction::Iterate);
    step(&mut watch, RunEvent::Iterated(IterationOutcome::Done));
    assert_eq!(watch.run_action(), RunAction::CheckStop);
    step(&mut watch, RunEvent::StopFlag(true));
    assert_eq!(watch.run_action(), RunAction::Return(Ok(())));
    assert!(!watch.accepts(&RunEvent::StopFlag(false)));
}

#[test]
fn watcher_stops_while_it_waits() {
    let mut watch = watch();
    step(&mut watch, RunEvent::StopFlag(false));
    step(&mut watch, RunEvent::StopChanged);
    assert_eq!(watch.run_action(), RunAction::Return(Ok(())));
}

#[test]
fn transient_failures_back_off_and_a_success_resets() {
    let mut watch = watch();
    let mut pauses: Vec<u64> = Vec::new();
    let transient = IterationOutcome::Transient;
    let done = IterationOutcome::Done;
    for outcome in [transient, transient, transient, done, transient] {
        step(&mut watch, RunEvent::StopFlag(false));
        step(&mut watch, RunEvent::Tick);
        step(&mut watch, RunEvent::Connected);
        step(&mut watch, RunEvent::Iterated(outcome));
        if let RunAction::Sleep(pause) = watch.run_action() {
            pauses.push(pause.min_ms);
            step(&mut watch, RunEvent::Slept);
        }
    }
    assert_eq!(pauses, vec![200, 400, 800, 200]);
}

#[test]
fn watcher_gives_up() {
    let mut fatal = watch();
    step(&mut fatal, RunEvent::StopFlag(false));
    step(&mut fatal, RunEvent::Tick);
    step(&mut fatal, RunEvent::Connected);
    step(&mut fatal, RunEvent::Iterated(IterationOutcome::Fatal));
    assert_eq!(fatal.run_action(), RunAction::Return(Err(RunError::Fatal)));
    let mut unconnected = watch();
    step(&mut unconnected, RunEvent::StopFlag(false));
    step(&mut unconnected, RunEvent::Tick);
    step(&mut unconnected, RunEvent::ConnectFailed);
    assert_eq!(unconnected.run_action(), RunAction::Return(Err(RunError::Connection)));
}

#[test]
fn processors_get_their_clients() {
    let sl = ProcessorClient { source: EventsSource::SL, extended: false };
    let sl_extended = ProcessorClient { source: EventsSource::SL, extended: true };
    let l1 = ProcessorClient { source: EventsSource::L1, extended: false };
    let gateway = Some(SettlementLayer::Gateway(506));
    let (_, seeds) = EthWatch::new(initial(), gateway, L2ChainId(270), 50_000);
    let clients: Vec<Vec<ProcessorClient>> = seeds.iter().map(|seed| seed.needed_clients()).collect();
    assert_eq!(clients, vec![vec![sl], vec![sl, l1], vec![], vec![sl_extended], vec![sl_extended]]);
}

#[test]
fn only_passes_that_went_fine_are_polls() {
    assert!(RunEvent::Iterated(IterationOutcome::Done).counts_as_poll());
    let others = vec![
        RunEvent::StopFlag(false),
        RunEvent::StopFlag(true),
        RunEvent::Tick,
        RunEvent::StopChanged,
        RunEvent::Connected,
        RunEvent::ConnectFailed,
        RunEvent::Iterated(IterationOutcome::Fatal),
        RunEvent::Iterated(IterationOutcome::Transient),
        RunEvent::Slept,
    ];
    assert!(others.iter().all(|event| !event.counts_as_poll()));
}

#[test]
fn polls_of_a_run_are_its_good_passes() {
    let mut watch = watch();
    let outcomes = vec![
        IterationOutcome::Done,
        IterationOutcome::Transient,
        IterationOutcome::Done,
        IterationOutcome::Done,
        IterationOutcome::Fatal,
    ];
    let mut polls = 0;
    for outcome in outcomes {
        let mut events =
            vec![RunEvent::StopFlag(false), RunEvent::Tick, RunEvent::Connected, RunEvent::Iterated(outcome)];
        if outcome == IterationOutcome::Transient {
            events.push(RunEvent::Slept);
        }
        for event in events {
            if event.counts_as_poll() {
                polls += 1;
            }
            step(&mut watch, event);
        }
    }
    assert_eq!(polls, 3);
    assert!(matches!(watch.run_action(), RunAction::Return(Err(_))));
}
