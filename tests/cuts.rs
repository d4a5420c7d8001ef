use recovery_line::cuts::CutEnumerator;
use recovery_line::event::{Event, EventKind, EventLog, LogError};

fn recv(from_host: usize, from_clock: usize) -> EventKind {
    EventKind::Receive { from_host, from_clock }
}

fn two_host_log() -> EventLog {
    let events = vec![
        Event::new(EventKind::Local, 0, 1),
        Event::new(EventKind::Send, 0, 2),
        Event::new(recv(0, 2), 1, 1),
        Event::new(EventKind::Checkpoint, 1, 2),
    ];
    EventLog::new(vec!["A".to_string(), "B".to_string()], events).unwrap()
}

fn all_cuts(e: &mut CutEnumerator) -> Vec<Vec<usize>> {
    let mut out = Vec::new();
    while let Some(c) = e.next_cut() {
        out.push(c);
    }
    out
}

#[test]
fn enumerates_product_of_counts_in_order() {
    let mut e = CutEnumerator::new(vec![2, 3, 1]);
    let cuts = all_cuts(&mut e);
    assert_eq!(cuts.len(), 6);
    assert_eq!(
        cuts,
        vec![
            vec![0, 0, 0],
            vec![0, 1, 0],
            vec![0, 2, 0],
            vec![1, 0, 0],
            vec![1, 1, 0],
            vec![1, 2, 0]
        ]
    );
    for c in &cuts {
        assert_eq!(c.len(), 3);
    }
    assert_eq!(e.next_cut(), None);
}

#[test]
fn enumeration_restarts() {
    let mut e = CutEnumerator::new(vec![2, 2]);
    let first = all_cuts(&mut e);
    e.restart();
    let second = all_cuts(&mut e);
    assert_eq!(first, second);
    assert_eq!(first.len(), 4);
}

#[test]
fn host_without_events_gives_no_cut() {
    let mut e = CutEnumerator::new(vec![3, 0, 2]);
    assert_eq!(e.next_cut(), None);
}

#[test]
fn no_hosts_give_one_empty_cut() {
    let mut e = CutEnumerator::new(Vec::new());
    assert_eq!(all_cuts(&mut e), vec![Vec::<usize>::new()]);
}

#[test]
fn orphan_receive_makes_cut_inconsistent() {
    let log = two_host_log();
    // B at its receive (position 0) while A stops before its send.
    assert!(!log.is_consistent_cut(&vec![0, 0]));
    assert!(log.is_consistent_cut(&vec![1, 0]));
    assert!(log.is_consistent_cut(&vec![0, 1]) == false);
    assert!(log.is_consistent_cut(&vec![1, 1]));
}

#[test]
fn consistent_cuts_include_the_send_of_every_included_receive() {
    let log = two_host_log();
    let mut e = log.enumerate_cuts();
    let mut consistent = 0;
    while let Some(c) = e.next_cut() {
        if log.is_consistent_cut(&c) {
            consistent += 1;
            for r in log.events() {
                if let EventKind::Receive { from_host, from_clock } = r.kind {
                    if r.clock <= c[r.host] + 1 {
                        assert!(from_clock <= c[from_host] + 1);
                    }
                }
            }
        }
    }
    assert_eq!(consistent, 2);
}

#[test]
fn scenario_recovery_line_for_failed_b() {
    let log = two_host_log();
    let line = log.find_recovery_line(&vec![1]).unwrap();
    assert_eq!(line, vec![1, 1]);
    let age: usize = line.iter().map(|p| p + 1).sum();
    assert_eq!(age, 4);
}

#[test]
fn no_failure_recovers_every_last_event() {
    let events = vec![
        Event::new(EventKind::Checkpoint, 0, 1),
        Event::new(EventKind::Send, 0, 2),
        Event::new(EventKind::Checkpoint, 1, 1),
        Event::new(recv(0, 2), 1, 2),
        Event::new(EventKind::Local, 2, 1),
    ];
    let log = EventLog::new(vec!["A".into(), "B".into(), "C".into()], events).unwrap();
    let last = vec![1, 1, 0];
    assert!(log.is_consistent_cut(&last));
    assert_eq!(log.find_recovery_line(&Vec::new()), Ok(last));
}

#[test]
fn failed_host_without_checkpoint_has_no_recovery_line() {
    let log = two_host_log();
    assert_eq!(log.find_recovery_line(&vec![0]), Err(LogError::NoRecoveryLine));
    assert_eq!(log.find_recovery_line(&vec![5]), Err(LogError::NoRecoveryLine));
}

#[test]
fn rollback_stops_at_the_newest_consistent_checkpoints() {
    // A: Checkpoint, Send, Checkpoint; B: Checkpoint, Receive(A@2), Local.
    let events = vec![
        Event::new(EventKind::Checkpoint, 0, 1),
        Event::new(EventKind::Send, 0, 2),
        Event::new(EventKind::Checkpoint, 1, 1),
        Event::new(recv(0, 2), 1, 2),
        Event::new(EventKind::Checkpoint, 0, 3),
        Event::new(EventKind::Local, 1, 3),
    ];
    let log = EventLog::new(vec!["A".into(), "B".into()], events).unwrap();
    // A fails: it rolls back to a checkpoint; B, with no checkpoint at its
    // end, stays at its last event, which needs A's send.
    assert_eq!(log.find_recovery_line(&vec![0]), Ok(vec![2, 2]));
    // Both fail: A's newest checkpoint with B's only checkpoint.
    assert_eq!(log.find_recovery_line(&vec![0, 1]), Ok(vec![2, 0]));
}

#[test]
fn both_failed_recover_to_their_newest_checkpoints() {
    // Both hosts only checkpoint; with both failed every cut is admissible.
    let events = vec![
        Event::new(EventKind::Checkpoint, 0, 1),
        Event::new(EventKind::Checkpoint, 0, 2),
        Event::new(EventKind::Checkpoint, 1, 1),
        Event::new(EventKind::Checkpoint, 1, 2),
    ];
    let log = EventLog::new(vec!["A".into(), "B".into()], events).unwrap();
    assert_eq!(log.find_recovery_line(&vec![0, 1]), Ok(vec![1, 1]));
}
