use eth_watch::chunk::{
    advance_cursor, earliest_cursor, group_by_topics, is_behind, next_block_to_process, plan_chunk, PState,
};
use eth_watch::iteration::{
    Action, Event, Failure, LoopIteration, ProcessorInfo, GET_EVENTS_INTERNAL_RETRY_LIMIT,
    MAX_RPCS_PER_ITER_PER_SOURCE, MAX_RPC_RETRIES,
};
use eth_watch::logs::{sort_logs, Log};
use eth_watch::pause::Pause;
use eth_watch::types::{EventsSource, H256, U256};

fn topic(n: u128) -> Option<H256> {
    Some(H256 { hi: 0, lo: n })
}

fn state(idx: usize, cursor: u64, n: u128) -> PState {
    PState { idx, cursor, topic1: topic(n), topic2: None }
}

fn log(block: Option<u64>, index: Option<u128>, position: usize) -> Log {
    let log_index = match index {
        Some(lo) => Some(U256 { hi: 0, lo }),
        None => None,
    };
    Log { block_number: block, log_index, position }
}

fn positions(logs: &Vec<Log>) -> Vec<usize> {
    logs.iter().map(|log| log.position).collect()
}

fn processor(source: EventsSource, only_finalized: bool) -> ProcessorInfo {
    ProcessorInfo { source, only_finalized }
}

/// Hands the event over after checking that it is waited for.
fn step(iteration: &mut LoopIteration, event: Event) {
    assert!(iteration.accepts(&event), "{:?} is not waited for by {:?}", event, iteration);
    iteration.step(event);
}

#[test]
fn logs_are_sorted_by_block_and_index() {
    let logs = vec![
        log(Some(7), Some(1), 0),
        log(Some(5), Some(2), 1),
        log(Some(5), Some(1), 2),
        log(None, Some(9), 3),
        log(Some(5), None, 4),
    ];
    assert_eq!(positions(&sort_logs(logs)), vec![3, 4, 2, 1, 0]);
}

#[test]
fn high_half_of_the_index_decides_first() {
    let low = Log { block_number: Some(1), log_index: Some(U256 { hi: 0, lo: u128::MAX }), position: 0 };
    let high = Log { block_number: Some(1), log_index: Some(U256 { hi: 1, lo: 0 }), position: 1 };
    assert_eq!(positions(&sort_logs(vec![high, low])), vec![0, 1]);
}

#[test]
fn equal_logs_keep_their_order() {
    let logs = vec![
        log(Some(3), Some(0), 0),
        log(Some(0), None, 1),
        log(None, Some(0), 2),
        log(Some(3), None, 3),
        log(None, None, 4),
    ];
    assert_eq!(positions(&sort_logs(logs)), vec![1, 2, 4, 0, 3]);
    assert!(sort_logs(Vec::new()).is_empty());
}

#[test]
fn sorted_logs_stay_as_they_are() {
    let logs: Vec<Log> = (0..50).map(|n| log(Some(n / 3), Some((n % 3) as u128), n as usize)).collect();
    let mut reversed = logs.clone();
    reversed.reverse();
    assert_eq!(sort_logs(logs.clone()), logs);
    assert_eq!(sort_logs(reversed), logs);
}

#[test]
fn earliest_cursor_ignores_those_past_the_tip() {
    let states = vec![state(0, 30, 1), state(1, 20, 1), state(2, 40, 1)];
    assert_eq!(earliest_cursor(&states, 25), Some(20));
    assert_eq!(earliest_cursor(&states, 100), Some(20));
    assert_eq!(earliest_cursor(&states, 19), None);
    assert!(is_behind(&states, 20));
    assert!(!is_behind(&states, 19));
}

#[test]
fn groups_share_topics() {
    let states = vec![state(0, 1, 7), state(1, 2, 8), state(2, 3, 7), state(3, 90, 7), state(4, 4, 9)];
    let groups = group_by_topics(&states, 50);
    assert_eq!(groups.len(), 3);
    assert_eq!(groups[0].topic1, topic(7));
    assert_eq!(groups[0].members, vec![0, 2]);
    assert_eq!(groups[1].members, vec![1]);
    assert_eq!(groups[2].members, vec![4]);
}

#[test]
fn second_topic_tells_groups_apart() {
    let states = vec![
        PState { idx: 0, cursor: 0, topic1: topic(1), topic2: None },
        PState { idx: 1, cursor: 0, topic1: topic(1), topic2: topic(2) },
        PState { idx: 2, cursor: 0, topic1: None, topic2: None },
        PState { idx: 3, cursor: 0, topic1: topic(1), topic2: topic(2) },
    ];
    let groups = group_by_topics(&states, 0);
    assert_eq!(groups.len(), 3);
    assert_eq!(groups[1].members, vec![1, 3]);
}

#[test]
fn chunks_span_at_most_a_thousand_blocks() {
    let states = vec![state(0, 500, 1), state(1, 100, 2), state(2, 1_100, 3)];
    let chunk = plan_chunk(&states, 5_000, 9).unwrap();
    assert_eq!((chunk.from, chunk.to), (100, 1_099));
    assert_eq!(chunk.groups.len(), 2);
    let chunk = plan_chunk(&states, 700, 1).unwrap();
    assert_eq!((chunk.from, chunk.to), (100, 700));
    assert_eq!(chunk.groups.len(), 1);
    assert!(plan_chunk(&states, 99, 9).is_none());
    let top = vec![state(0, u64::MAX - 1, 1)];
    let chunk = plan_chunk(&top, u64::MAX, 9).unwrap();
    assert_eq!((chunk.from, chunk.to), (u64::MAX - 1, u64::MAX));
}

#[test]
fn next_block_depends_on_what_was_processed() {
    let logs = vec![log(Some(12), None, 0), log(Some(14), None, 1), log(Some(17), None, 2)];
    assert_eq!(next_block_to_process(3, &logs, 10, 20), 21);
    assert_eq!(next_block_to_process(0, &logs, 10, 20), 10);
    assert_eq!(next_block_to_process(1, &logs, 10, 20), 12);
    assert_eq!(next_block_to_process(2, &logs, 10, 20), 14);
    assert_eq!(next_block_to_process(0, &Vec::new(), 10, 20), 21);
    assert_eq!(next_block_to_process(0, &Vec::new(), 10, u64::MAX), u64::MAX);
}

#[test]
fn cursors_always_move_on() {
    assert_eq!(advance_cursor(10, 21), 21);
    assert_eq!(advance_cursor(10, 10), 11);
    assert_eq!(advance_cursor(10, 4), 11);
    assert_eq!(advance_cursor(u64::MAX, 4), u64::MAX);
}

#[test]
fn nothing_to_serve() {
    let iteration = LoopIteration::begin(Vec::new(), 10);
    assert!(matches!(iteration.action(), Action::Return(Ok(()))));
    assert!(!iteration.accepts(&Event::Failed));
    assert!(!iteration.accepts(&Event::Slept));
}

#[test]
fn one_processor_catches_up() {
    let mut iteration = LoopIteration::begin(vec![processor(EventsSource::L1, false)], 50);
    assert!(matches!(iteration.action(), Action::FetchChainId { source: EventsSource::L1 }));
    assert_eq!(iteration.action().max_retries(), MAX_RPC_RETRIES);
    step(&mut iteration, Event::ChainId(1));
    assert!(matches!(iteration.action(), Action::FetchConfirmedBlock { source: EventsSource::L1 }));
    assert!(!iteration.accepts(&Event::FinalizedBlock(3)));
    step(&mut iteration, Event::ConfirmedBlock(120));
    assert!(matches!(
        iteration.action(),
        Action::LoadCursor { processor: 0, chain_id: 1, default_block: 70 }
    ));
    assert_eq!(iteration.action().max_retries(), 0);
    step(&mut iteration, Event::Cursor { cursor: 70, topic1: topic(4), topic2: topic(5) });
    match iteration.action() {
        Action::FetchLogs { source, from, to, topic1, topic2, retry_limit } => {
            assert_eq!(source, EventsSource::L1);
            assert_eq!((from, to), (70, 120));
            assert_eq!((topic1, topic2), (topic(4), topic(5)));
            assert_eq!(retry_limit, GET_EVENTS_INTERNAL_RETRY_LIMIT);
        }
        other => panic!("unexpected {:?}", other),
    }
    step(&mut iteration, Event::Logs(vec![log(Some(90), None, 0), log(Some(80), None, 1)]));
    match iteration.action() {
        Action::ProcessEvents { processor, logs } => {
            assert_eq!(processor, 0);
            assert_eq!(positions(&logs), vec![1, 0]);
        }
        other => panic!("unexpected {:?}", other),
    }
    assert!(!iteration.accepts(&Event::Processed(3)));
    step(&mut iteration, Event::Processed(2));
    assert!(matches!(
        iteration.action(),
        Action::StoreCursor { processor: 0, chain_id: 1, next_block: 121 }
    ));
    step(&mut iteration, Event::Stored);
    match iteration.action() {
        Action::Sleep(pause) => assert_eq!(pause, Pause { min_ms: 60, max_ms: 150 }),
        other => panic!("unexpected {:?}", other),
    }
    step(&mut iteration, Event::Slept);
    assert!(matches!(iteration.action(), Action::Return(Ok(()))));
}

#[test]
fn stalled_processor_is_pushed_on() {
    let mut iteration = LoopIteration::begin(vec![processor(EventsSource::SL, true)], 10);
    step(&mut iteration, Event::ChainId(2));
    assert!(matches!(iteration.action(), Action::FetchFinalizedBlock { source: EventsSource::SL }));
    step(&mut iteration, Event::FinalizedBlock(5));
    assert!(matches!(iteration.action(), Action::LoadCursor { default_block: 0, .. }));
    step(&mut iteration, Event::Cursor { cursor: 5, topic1: None, topic2: None });
    step(&mut iteration, Event::Logs(vec![log(Some(5), None, 0)]));
    step(&mut iteration, Event::Processed(0));
    assert!(matches!(iteration.action(), Action::StoreCursor { next_block: 5, .. }));
    step(&mut iteration, Event::Stored);
    match iteration.action() {
        Action::Sleep(pause) => assert_eq!(pause, Pause { min_ms: 150, max_ms: 350 }),
        other => panic!("unexpected {:?}", other),
    }
    step(&mut iteration, Event::Slept);
    step(&mut iteration, Event::Slept);
    assert!(matches!(iteration.action(), Action::Return(Ok(()))));
}

#[test]
fn missing_block_number_is_not_accepted() {
    let mut iteration = LoopIteration::begin(vec![processor(EventsSource::L1, false)], 10);
    step(&mut iteration, Event::ChainId(1));
    step(&mut iteration, Event::ConfirmedBlock(9));
    step(&mut iteration, Event::Cursor { cursor: 0, topic1: None, topic2: None });
    step(&mut iteration, Event::Logs(vec![log(None, None, 0), log(Some(3), None, 1)]));
    assert!(!iteration.accepts(&Event::Processed(1)));
    assert!(iteration.accepts(&Event::Processed(0)));
    assert!(iteration.accepts(&Event::Processed(2)));
}

#[test]
fn processors_past_the_tip_are_left_out() {
    let processors = vec![processor(EventsSource::L1, false), processor(EventsSource::L1, true)];
    let mut iteration = LoopIteration::begin(processors, 10);
    step(&mut iteration, Event::ChainId(1));
    step(&mut iteration, Event::ConfirmedBlock(100));
    step(&mut iteration, Event::FinalizedBlock(40));
    step(&mut iteration, Event::Cursor { cursor: 101, topic1: None, topic2: None });
    assert!(matches!(
        iteration.action(),
        Action::LoadCursor { processor: 1, chain_id: 1, default_block: 30 }
    ));
    step(&mut iteration, Event::Cursor { cursor: 41, topic1: None, topic2: None });
    assert!(matches!(iteration.action(), Action::Return(Ok(()))));
}

#[test]
fn one_request_serves_all_of_the_same_topics() {
    let processors = vec![processor(EventsSource::L1, false), processor(EventsSource::L1, false)];
    let mut iteration = LoopIteration::begin(processors, 10);
    step(&mut iteration, Event::ChainId(1));
    step(&mut iteration, Event::ConfirmedBlock(100));
    step(&mut iteration, Event::Cursor { cursor: 95, topic1: topic(1), topic2: None });
    step(&mut iteration, Event::Cursor { cursor: 90, topic1: topic(1), topic2: None });
    assert!(matches!(iteration.action(), Action::FetchLogs { from: 90, to: 100, .. }));
    step(&mut iteration, Event::Logs(Vec::new()));
    assert!(matches!(iteration.action(), Action::ProcessEvents { processor: 0, .. }));
    step(&mut iteration, Event::Processed(0));
    step(&mut iteration, Event::Stored);
    assert!(matches!(iteration.action(), Action::ProcessEvents { processor: 1, .. }));
    step(&mut iteration, Event::Processed(0));
    step(&mut iteration, Event::Stored);
    step(&mut iteration, Event::Slept);
    assert!(matches!(iteration.action(), Action::Return(Ok(()))));
}

#[test]
fn requests_stay_within_the_budget() {
    let processors = vec![processor(EventsSource::L1, false), processor(EventsSource::L1, true)];
    let mut iteration = LoopIteration::begin(processors, 10);
    let mut requests = 0;
    let mut tail_pauses = 0;
    let mut steps = 0;
    loop {
        let event = match iteration.action() {
            Action::FetchChainId { .. } => Event::ChainId(1),
            Action::FetchConfirmedBlock { .. } => Event::ConfirmedBlock(1_000_000),
            Action::FetchFinalizedBlock { .. } => Event::FinalizedBlock(900_000),
            Action::LoadCursor { .. } => Event::Cursor { cursor: 0, topic1: None, topic2: None },
            Action::FetchLogs { from, to, .. } => {
                assert_eq!(from, requests * 1_000);
                assert_eq!(to, from + 999);
                requests += 1;
                Event::Logs(Vec::new())
            }
            Action::ProcessEvents { .. } => Event::Processed(0),
            Action::StoreCursor { .. } => Event::Stored,
            Action::Sleep(pause) => {
                if pause == (Pause { min_ms: 200, max_ms: 600 }) {
                    tail_pauses += 1;
                }
                Event::Slept
            }
            Action::Return(result) => {
                assert!(result.is_ok());
                break;
            }
        };
        step(&mut iteration, event);
        steps += 1;
    }
    assert_eq!(requests as usize, MAX_RPCS_PER_ITER_PER_SOURCE);
    assert_eq!(tail_pauses, 1);
    assert!(steps <= 2 * (3 + 9 * 8 + 2 * 3));
}

#[test]
fn budget_is_fresh_for_each_source() {
    let processors = vec![processor(EventsSource::SL, false), processor(EventsSource::L1, false)];
    let mut iteration = LoopIteration::begin(processors, 10);
    let mut served: Vec<EventsSource> = Vec::new();
    loop {
        let event = match iteration.action() {
            Action::FetchChainId { source } => {
                served.push(source);
                Event::ChainId(1)
            }
            Action::FetchConfirmedBlock { .. } => Event::ConfirmedBlock(1_000_000),
            Action::LoadCursor { processor, .. } => {
                assert_eq!(processor, if served.len() == 1 { 1 } else { 0 });
                Event::Cursor { cursor: 0, topic1: None, topic2: None }
            }
            Action::FetchLogs { source, .. } => {
                served.push(source);
                Event::Logs(Vec::new())
            }
            Action::ProcessEvents { .. } => Event::Processed(0),
            Action::StoreCursor { .. } => Event::Stored,
            Action::Sleep(_) => Event::Slept,
            Action::Return(_) => break,
            other => panic!("unexpected {:?}", other),
        };
        step(&mut iteration, event);
    }
    assert_eq!(served.len(), 20);
    assert!(served[..10].iter().all(|source| *source == EventsSource::L1));
    assert!(served[10..].iter().all(|source| *source == EventsSource::SL));
}

#[test]
fn failures_end_the_pass() {
    let start = || {
        let mut iteration = LoopIteration::begin(vec![processor(EventsSource::L1, false)], 10);
        step(&mut iteration, Event::ChainId(1));
        step(&mut iteration, Event::ConfirmedBlock(9));
        iteration
    };
    let mut iteration = LoopIteration::begin(vec![processor(EventsSource::L1, false)], 10);
    step(&mut iteration, Event::Failed);
    assert!(matches!(iteration.action(), Action::Return(Err(Failure::Client))));
    let mut iteration = start();
    step(&mut iteration, Event::Failed);
    assert!(matches!(iteration.action(), Action::Return(Err(Failure::Internal))));
    let mut iteration = start();
    step(&mut iteration, Event::Cursor { cursor: 0, topic1: None, topic2: None });
    step(&mut iteration, Event::Logs(Vec::new()));
    step(&mut iteration, Event::Failed);
    assert!(matches!(iteration.action(), Action::Return(Err(Failure::Processor))));
    assert!(!iteration.accepts(&Event::Failed));
}

/// One pass of a processor of the source that is alone there and processes all of its logs: what was fetched,
/// and what is stored in the end.
fn full_pass(source: EventsSource, finalized: bool, stored: u64, tip: u64) -> (Vec<(u64, u64)>, Vec<u64>, u64) {
    let other = match source {
        EventsSource::L1 => EventsSource::SL,
        EventsSource::SL => EventsSource::L1,
    };
    let processors = vec![processor(other, false), processor(source, finalized), processor(other, true)];
    let mut iteration = LoopIteration::begin(processors, 500);
    let mut ranges: Vec<(u64, u64)> = Vec::new();
    let mut blocks: Vec<u64> = Vec::new();
    let mut cursor = stored;
    loop {
        let event = match iteration.action() {
            Action::FetchChainId { .. } => Event::ChainId(1),
            Action::FetchConfirmedBlock { source: asked } => {
                Event::ConfirmedBlock(if asked == source { tip } else { 2_500 })
            }
            Action::FetchFinalizedBlock { source: asked } => {
                Event::FinalizedBlock(if asked == source { tip } else { 2_500 })
            }
            Action::LoadCursor { processor, default_block, .. } => {
                let loaded = if processor == 1 { cursor } else { default_block };
                Event::Cursor { cursor: loaded, topic1: topic(processor as u128), topic2: None }
            }
            Action::FetchLogs { source: asked, from, to, .. } => {
                if asked == source {
                    ranges.push((from, to));
                }
                Event::Logs(vec![log(Some(from), Some(0), 0), log(Some(to), Some(1), 1)])
            }
            Action::ProcessEvents { processor, logs } => {
                Event::Processed(if processor == 1 { logs.len() } else { 1 })
            }
            Action::StoreCursor { processor, next_block, .. } => {
                if processor == 1 {
                    blocks.push(next_block);
                    cursor = next_block;
                }
                Event::Stored
            }
            Action::Sleep(_) => Event::Slept,
            Action::Return(result) => {
                assert_eq!(result, Ok(()));
                return (ranges, blocks, cursor);
            }
        };
        step(&mut iteration, event);
    }
}

#[test]
fn pass_goes_as_far_as_its_requests() {
    for source in vec![EventsSource::L1, EventsSource::SL] {
        for finalized in vec![false, true] {
            assert_eq!(full_pass(source, finalized, 100, 50_000).2, 9_100);
            assert_eq!(full_pass(source, finalized, 100, 9_099).2, 9_100);
            assert_eq!(full_pass(source, finalized, 100, 9_098).2, 9_099);
            assert_eq!(full_pass(source, finalized, 100, 100), (vec![(100, 100)], vec![101], 101));
        }
    }
}

#[test]
fn pass_past_the_tip_fetches_and_stores_nothing() {
    assert_eq!(full_pass(EventsSource::L1, false, 101, 100), (vec![], vec![], 101));
    assert_eq!(full_pass(EventsSource::SL, true, 7_000, 100), (vec![], vec![], 7_000));
}

#[test]
fn passes_fetch_each_block_once() {
    let mut stored = 100;
    let mut ranges: Vec<(u64, u64)> = Vec::new();
    let mut reached: Vec<u64> = Vec::new();
    for tip in vec![20_000, 20_000, 20_000, 19_000, 20_000, 21_500] {
        let (fetched, _, next) = full_pass(EventsSource::SL, false, stored, tip);
        ranges.extend(fetched);
        reached.push(next);
        stored = next;
    }
    assert_eq!(reached, vec![9_100, 18_100, 20_001, 20_001, 20_001, 21_501]);
    let mut next = 100;
    for (from, to) in ranges {
        assert_eq!(from, next);
        assert!(from <= to);
        next = to + 1;
    }
    assert_eq!(next, 21_501);
}
