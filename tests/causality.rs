use recovery_line::event::{Event, EventKind, EventLabel, EventLog, LogError};
use recovery_line::order::{are_concurrent, compare, count_concurrent_events, Order};

fn recv(from_host: usize, from_clock: usize) -> EventKind {
    EventKind::Receive { from_host, from_clock }
}

/// Hosts A (0) and B (1): A logs Local, Send; B logs Receive of A's send,
/// then Checkpoint.
fn two_host_log() -> EventLog {
    let events = vec![
        Event::new(EventKind::Local, 0, 1),
        Event::new(EventKind::Send, 0, 2),
        Event::new(recv(0, 2), 1, 1),
        Event::new(EventKind::Checkpoint, 1, 2),
    ];
    EventLog::new(vec!["A".to_string(), "B".to_string()], events).unwrap()
}

fn clocks(log: &EventLog) -> Vec<Vec<usize>> {
    log.events().iter().map(|e| e.vector_clock.clone()).collect()
}

#[test]
fn scenario_vector_clocks() {
    let mut log = two_host_log();
    assert_eq!(log.assign_vector_clocks(), Ok(()));
    assert_eq!(clocks(&log), vec![vec![1, 0], vec![2, 0], vec![2, 1], vec![2, 2]]);
}

#[test]
fn scenario_compare_before() {
    let mut log = two_host_log();
    log.assign_vector_clocks().unwrap();
    let ev = log.events();
    assert_eq!(compare(&ev[0], &ev[2]), Order::Before);
    assert_eq!(compare(&ev[2], &ev[0]), Order::After);
    assert_eq!(compare(&ev[3], &ev[3]), Order::Equal);
    assert_eq!(count_concurrent_events(ev), 0);
}

#[test]
fn own_entry_rises_by_one_per_local_event() {
    let events = vec![
        Event::new(EventKind::Send, 0, 1),
        Event::new(EventKind::Local, 1, 1),
        Event::new(recv(0, 1), 1, 2),
        Event::new(EventKind::Local, 0, 2),
        Event::new(EventKind::Send, 1, 3),
        Event::new(recv(1, 3), 0, 3),
    ];
    let mut log = EventLog::new(vec!["A".to_string(), "B".to_string()], events).unwrap();
    log.assign_vector_clocks().unwrap();
    for h in 0..2usize {
        let mine = log.events_by_host(h);
        for (p, e) in mine.iter().enumerate() {
            assert_eq!(e.vector_clock[h], p + 1);
            assert_eq!(e.clock, p + 1);
        }
    }
    assert_eq!(
        clocks(&log),
        vec![vec![1, 0], vec![0, 1], vec![1, 2], vec![2, 0], vec![1, 3], vec![3, 3]]
    );
}

#[test]
fn receive_clock_dominates_send_clock() {
    let mut log = two_host_log();
    log.assign_vector_clocks().unwrap();
    let ev = log.events();
    let send = &ev[1];
    let receive = &ev[2];
    assert!(send.vector_clock.iter().zip(receive.vector_clock.iter()).all(|(s, r)| s <= r));
    assert_eq!(compare(send, receive), Order::Before);
}

#[test]
fn compare_is_antisymmetric_and_concurrency_symmetric() {
    let a = Event { vector_clock: vec![2, 0, 1], ..Event::new(EventKind::Local, 0, 2) };
    let b = Event { vector_clock: vec![1, 3, 1], ..Event::new(EventKind::Local, 1, 3) };
    let c = Event { vector_clock: vec![2, 3, 1], ..Event::new(EventKind::Local, 1, 4) };
    assert_eq!(compare(&a, &b), Order::Concurrent);
    assert_eq!(compare(&b, &a), Order::Concurrent);
    assert!(are_concurrent(&a, &b));
    assert_eq!(compare(&a, &c), Order::Before);
    assert_eq!(compare(&c, &a), Order::After);
    assert!(!are_concurrent(&a, &c));
    assert_eq!(compare(&a, &a), Order::Equal);
}

#[test]
fn counts_concurrent_pairs() {
    // A: Local, Send; B: Local, Receive(A@2). A@1 || B@1 and A@2 || B@1.
    let events = vec![
        Event::new(EventKind::Local, 0, 1),
        Event::new(EventKind::Local, 1, 1),
        Event::new(EventKind::Send, 0, 2),
        Event::new(recv(0, 2), 1, 2),
    ];
    let mut log = EventLog::new(vec!["A".to_string(), "B".to_string()], events).unwrap();
    log.assign_vector_clocks().unwrap();
    let ev = log.events();
    let mut by_hand = 0;
    for i in 0..ev.len() {
        for j in i + 1..ev.len() {
            if compare(&ev[i], &ev[j]) == Order::Concurrent {
                by_hand += 1;
            }
        }
    }
    assert_eq!(count_concurrent_events(ev), 2);
    assert_eq!(by_hand, 2);
}

#[test]
fn empty_log_has_no_concurrent_pairs() {
    let mut log = EventLog::new(vec!["A".to_string()], Vec::new()).unwrap();
    assert_eq!(log.assign_vector_clocks(), Ok(()));
    assert_eq!(count_concurrent_events(log.events()), 0);
}

#[test]
fn receive_before_its_send_is_unresolved() {
    let events = vec![Event::new(recv(0, 1), 1, 1), Event::new(EventKind::Send, 0, 1)];
    let mut log = EventLog::new(vec!["A".to_string(), "B".to_string()], events).unwrap();
    assert_eq!(log.assign_vector_clocks(), Err(LogError::UnresolvedSender));
    assert!(log.events().iter().all(|e| e.vector_clock.is_empty()));
}

#[test]
fn receive_of_a_non_send_is_unresolved() {
    let events = vec![Event::new(EventKind::Local, 0, 1), Event::new(recv(0, 1), 1, 1)];
    let mut log = EventLog::new(vec!["A".to_string(), "B".to_string()], events).unwrap();
    assert_eq!(log.assign_vector_clocks(), Err(LogError::UnresolvedSender));
}

#[test]
fn malformed_logs_are_refused() {
    let hosts = || vec!["A".to_string(), "B".to_string()];
    let gap = vec![Event::new(EventKind::Local, 0, 1), Event::new(EventKind::Local, 0, 3)];
    assert_eq!(EventLog::new(hosts(), gap).unwrap_err(), LogError::MalformedLog);
    let dup = vec![Event::new(EventKind::Local, 0, 1), Event::new(EventKind::Local, 0, 1)];
    assert_eq!(EventLog::new(hosts(), dup).unwrap_err(), LogError::MalformedLog);
    let unknown_host = vec![Event::new(EventKind::Local, 2, 1)];
    assert_eq!(EventLog::new(hosts(), unknown_host).unwrap_err(), LogError::MalformedLog);
    let dangling = vec![Event::new(EventKind::Send, 0, 1), Event::new(recv(0, 2), 1, 1)];
    assert_eq!(EventLog::new(hosts(), dangling).unwrap_err(), LogError::MalformedLog);
    let zero_clock = vec![Event::new(EventKind::Local, 0, 0)];
    assert_eq!(EventLog::new(hosts(), zero_clock).unwrap_err(), LogError::MalformedLog);
}

#[test]
fn log_accessors() {
    let log = two_host_log();
    assert_eq!(log.hosts(), &vec!["A".to_string(), "B".to_string()]);
    assert_eq!(log.event_counts(), vec![2, 2]);
    let b = log.events_by_host(1);
    assert_eq!(b.len(), 2);
    assert_eq!(b[0].kind, recv(0, 2));
    assert_eq!(b[1].kind, EventKind::Checkpoint);
    assert_eq!(b[1].clock, 2);
}

#[test]
fn records_become_events() {
    let entries = vec![(0usize, 2usize), (1usize, 1usize)];
    let e = Event::from_entries(EventLabel::Receive, 1, &entries).unwrap();
    assert_eq!(e.kind, recv(0, 2));
    assert_eq!(e.host, 1);
    assert_eq!(e.clock, 1);
    let s = Event::from_entries(EventLabel::Send, 0, &vec![(0usize, 5usize)]).unwrap();
    assert_eq!(s.kind, EventKind::Send);
    assert_eq!(s.clock, 5);
    assert_eq!(
        Event::from_entries(EventLabel::Local, 2, &entries).unwrap_err(),
        LogError::MalformedLog
    );
    assert_eq!(
        Event::from_entries(EventLabel::Receive, 0, &vec![(0usize, 1usize)]).unwrap_err(),
        LogError::MalformedLog
    );
}
