use std::cell::RefCell;
use std::collections::HashMap;

use betmasters::coordinator::{
    Coordinator, CoordinatorAction, InternalMessage, AUTO_START_NANOS, TASK_TIMEOUT_NANOS,
};
use betmasters::protocol::CoordinatorCommand;
use tokio::sync::mpsc::{self, UnboundedReceiver, UnboundedSender};

const SECOND: u64 = 1_000_000_000;

/// The coordinator with the workers' channels, as the server keeps them.
struct Node {
    c: Coordinator,
    senders: HashMap<u64, UnboundedSender<CoordinatorCommand>>,
}

impl Node {
    fn new(width: u32, height: u32, block_size: u32) -> Node {
        Node { c: Coordinator::new(width, height, block_size, 100), senders: HashMap::new() }
    }

    fn connect(&mut self, now: u64) -> (u64, UnboundedReceiver<CoordinatorCommand>) {
        let (tx, rx) = mpsc::unbounded_channel();
        self.senders.insert(self.c.workers_joined() + 1, tx);
        let senders = &self.senders;
        let action = self.c.handle_internal_message(InternalMessage::WorkerConnected, now, |a, cmd| {
            senders.get(&a).map_or(false, |tx| tx.send(cmd).is_ok())
        });
        let id = match action {
            CoordinatorAction::Welcome(id) => id,
            other => panic!("unexpected action {:?}", other),
        };
        (id, rx)
    }

    fn tick(&mut self, now: u64) -> bool {
        let senders = &self.senders;
        self.c.on_tick(now, |a, cmd| senders.get(&a).map_or(false, |tx| tx.send(cmd).is_ok()))
    }

    fn finish(&mut self, task_id: u32, alias: u64, data: Vec<u32>, now: u64) -> CoordinatorAction {
        let senders = &self.senders;
        self.c.handle_internal_message(
            InternalMessage::WorkerFinished { task_id, alias, data },
            now,
            |a, cmd| senders.get(&a).map_or(false, |tx| tx.send(cmd).is_ok()),
        )
    }

    fn disconnect(&mut self, alias: u64, now: u64) -> CoordinatorAction {
        self.senders.remove(&alias);
        let senders = &self.senders;
        self.c.handle_internal_message(InternalMessage::WorkerDisconnected { alias }, now, |a, cmd| {
            senders.get(&a).map_or(false, |tx| tx.send(cmd).is_ok())
        })
    }
}

fn refuse(_: u64, _: CoordinatorCommand) -> bool {
    false
}

fn compute(task_id: u32, width: u32, height: u32, start_row: u32, end_row: u32) -> CoordinatorCommand {
    CoordinatorCommand::Compute { task_id, width, height, start_row, end_row }
}

#[test]
fn new_coordinator_has_blank_picture() {
    let c = Coordinator::new(4, 3, 2, 100);
    assert_eq!(c.storage, vec![0u32; 12]);
}

#[test]
fn workers_are_numbered_from_one() {
    let mut c = Node::new(4, 4, 2);
    let (a, _ra) = c.connect(0);
    let (b, _rb) = c.connect(0);
    assert_eq!(a, 1);
    assert_eq!(b, 2);
}

#[test]
fn nothing_is_handed_out_before_the_start() {
    let mut c = Node::new(4, 4, 2);
    let (_a, mut ra) = c.connect(0);
    assert!(!c.tick(AUTO_START_NANOS - 1));
    assert!(ra.try_recv().is_err());
}

#[test]
fn auto_start_hands_out_blocks_in_order() {
    let mut c = Node::new(5, 10, 3);
    let (_a, mut ra) = c.connect(0);
    let (_b, mut rb) = c.connect(SECOND);
    // ten seconds after the last connection, not after the first
    assert!(!c.tick(AUTO_START_NANOS));
    assert!(ra.try_recv().is_err());
    assert!(c.tick(AUTO_START_NANOS + SECOND));
    assert_eq!(ra.try_recv().unwrap(), compute(0, 5, 10, 0, 3));
    assert_eq!(rb.try_recv().unwrap(), compute(1, 5, 10, 3, 6));
    assert!(ra.try_recv().is_err());
    // the auto start happens once
    assert!(!c.tick(AUTO_START_NANOS * 3));
}

#[test]
fn last_block_is_cut_at_the_bottom() {
    let mut c = Node::new(2, 10, 3);
    let (a, mut ra) = c.connect(0);
    assert!(c.tick(AUTO_START_NANOS));
    let now = AUTO_START_NANOS;
    assert_eq!(ra.try_recv().unwrap(), compute(0, 2, 10, 0, 3));
    assert_eq!(c.finish(0, a, vec![1; 6], now), CoordinatorAction::Continue);
    assert_eq!(ra.try_recv().unwrap(), compute(1, 2, 10, 3, 6));
    assert_eq!(c.finish(1, a, vec![2; 6], now), CoordinatorAction::Continue);
    assert_eq!(ra.try_recv().unwrap(), compute(2, 2, 10, 6, 9));
    assert_eq!(c.finish(2, a, vec![3; 6], now), CoordinatorAction::Continue);
    assert_eq!(ra.try_recv().unwrap(), compute(3, 2, 10, 9, 10));
    assert_eq!(c.finish(3, a, vec![4; 2], now), CoordinatorAction::SaveImage);
    assert_eq!(
        c.c.storage,
        vec![1, 1, 1, 1, 1, 1, 2, 2, 2, 2, 2, 2, 3, 3, 3, 3, 3, 3, 4, 4]
    );
}

#[test]
fn worker_joining_after_start_gets_a_block_at_once() {
    let mut c = Node::new(4, 4, 2);
    let (_a, mut ra) = c.connect(0);
    assert!(c.tick(AUTO_START_NANOS));
    assert_eq!(ra.try_recv().unwrap(), compute(0, 4, 4, 0, 2));
    let (_b, mut rb) = c.connect(AUTO_START_NANOS);
    assert_eq!(rb.try_recv().unwrap(), compute(1, 4, 4, 2, 4));
}

#[test]
fn answers_are_merged_row_by_row() {
    let mut c = Node::new(3, 4, 2);
    let (a, mut ra) = c.connect(0);
    let (b, mut rb) = c.connect(0);
    assert!(c.tick(AUTO_START_NANOS));
    assert_eq!(ra.try_recv().unwrap(), compute(0, 3, 4, 0, 2));
    assert_eq!(rb.try_recv().unwrap(), compute(1, 3, 4, 2, 4));
    let now = AUTO_START_NANOS;
    assert_eq!(c.finish(1, b, vec![7, 8, 9, 10, 11, 12], now), CoordinatorAction::Continue);
    assert_eq!(c.c.storage, vec![0, 0, 0, 0, 0, 0, 7, 8, 9, 10, 11, 12]);
    assert_eq!(c.finish(0, a, vec![1, 2, 3, 4, 5, 6], now), CoordinatorAction::SaveImage);
    assert_eq!(c.c.storage, vec![1, 2, 3, 4, 5, 6, 7, 8, 9, 10, 11, 12]);
}

#[test]
fn answer_for_unknown_block_is_ignored() {
    let mut c = Node::new(2, 2, 1);
    let (a, mut ra) = c.connect(0);
    assert!(c.tick(AUTO_START_NANOS));
    assert_eq!(ra.try_recv().unwrap(), compute(0, 2, 2, 0, 1));
    assert_eq!(c.finish(1, a, vec![5, 5], AUTO_START_NANOS), CoordinatorAction::Continue);
    assert_eq!(c.c.storage, vec![0, 0, 0, 0]);
    assert!(ra.try_recv().is_err());
}

#[test]
fn oversized_answer_is_not_written_but_counts() {
    let mut c = Node::new(2, 2, 1);
    let (a, mut ra) = c.connect(0);
    assert!(c.tick(AUTO_START_NANOS));
    assert_eq!(ra.try_recv().unwrap(), compute(0, 2, 2, 0, 1));
    assert_eq!(c.finish(0, a, vec![9; 5], AUTO_START_NANOS), CoordinatorAction::Continue);
    assert_eq!(c.c.storage, vec![0, 0, 0, 0]);
    assert_eq!(ra.try_recv().unwrap(), compute(1, 2, 2, 1, 2));
}

#[test]
fn block_held_too_long_is_requeued() {
    let mut c = Node::new(2, 2, 1);
    let (_a, mut ra) = c.connect(0);
    let start = AUTO_START_NANOS;
    assert!(c.tick(start));
    assert_eq!(ra.try_recv().unwrap(), compute(0, 2, 2, 0, 1));
    // exactly the timeout: kept
    assert!(!c.tick(start + TASK_TIMEOUT_NANOS));
    assert!(ra.try_recv().is_err());
    // past the timeout: block 0 goes to the back, the worker gets block 1
    assert!(!c.tick(start + TASK_TIMEOUT_NANOS + 1));
    assert_eq!(ra.try_recv().unwrap(), compute(1, 2, 2, 1, 2));
}

#[test]
fn late_answer_after_timeout_is_still_merged() {
    let mut c = Node::new(2, 2, 1);
    let (a, mut ra) = c.connect(0);
    let start = AUTO_START_NANOS;
    assert!(c.tick(start));
    assert_eq!(ra.try_recv().unwrap(), compute(0, 2, 2, 0, 1));
    let later = start + TASK_TIMEOUT_NANOS + 1;
    assert!(!c.tick(later));
    assert_eq!(ra.try_recv().unwrap(), compute(1, 2, 2, 1, 2));
    assert_eq!(c.finish(1, a, vec![3, 4], later), CoordinatorAction::Continue);
    assert_eq!(ra.try_recv().unwrap(), compute(0, 2, 2, 0, 1));
    assert_eq!(c.finish(0, a, vec![1, 2], later), CoordinatorAction::SaveImage);
    assert_eq!(c.c.storage, vec![1, 2, 3, 4]);
}

#[test]
fn disconnected_worker_gives_its_block_back() {
    let mut c = Node::new(2, 2, 2);
    let (a, mut ra) = c.connect(0);
    let (_b, mut rb) = c.connect(0);
    let start = AUTO_START_NANOS;
    assert!(c.tick(start));
    assert_eq!(ra.try_recv().unwrap(), compute(0, 2, 2, 0, 2));
    assert!(rb.try_recv().is_err());
    assert_eq!(c.disconnect(a, AUTO_START_NANOS), CoordinatorAction::Continue);
    // handed out again on the next tick
    assert!(!c.tick(start + 1));
    assert_eq!(rb.try_recv().unwrap(), compute(0, 2, 2, 0, 2));
}

#[test]
fn closed_channel_drops_the_worker_and_keeps_the_block() {
    let mut c = Node::new(2, 2, 1);
    let (_a, ra) = c.connect(0);
    let (_b, mut rb) = c.connect(0);
    drop(ra);
    assert!(c.tick(AUTO_START_NANOS));
    assert_eq!(rb.try_recv().unwrap(), compute(0, 2, 2, 0, 1));
    assert!(rb.try_recv().is_err());
}

#[test]
fn answering_worker_gets_the_next_block() {
    let mut c = Node::new(1, 3, 1);
    let (a, mut ra) = c.connect(0);
    assert!(c.tick(AUTO_START_NANOS));
    assert_eq!(ra.try_recv().unwrap(), compute(0, 1, 3, 0, 1));
    assert_eq!(c.finish(0, a, vec![5], AUTO_START_NANOS), CoordinatorAction::Continue);
    assert_eq!(ra.try_recv().unwrap(), compute(1, 1, 3, 1, 2));
}

#[test]
fn counters_follow_joins_and_hand_outs() {
    let mut c = Node::new(2, 5, 2);
    assert_eq!(c.c.pending_task_count(), 3);
    assert_eq!(c.c.connected_workers(), 0);
    assert_eq!(c.c.workers_joined(), 0);
    let (a, _ra) = c.connect(0);
    let (_b, _rb) = c.connect(0);
    assert_eq!(c.c.connected_workers(), 2);
    assert_eq!(c.c.workers_joined(), 2);
    assert!(c.tick(AUTO_START_NANOS));
    assert_eq!(c.c.pending_task_count(), 1);
    c.disconnect(a, AUTO_START_NANOS);
    assert_eq!(c.c.connected_workers(), 1);
    assert_eq!(c.c.workers_joined(), 2);
    assert_eq!(c.c.pending_task_count(), 2);
}

#[test]
fn worker_numbers_are_fresh_after_a_disconnection() {
    let mut c = Node::new(4, 2, 1);
    let (a, _ra) = c.connect(0);
    let (b, _rb) = c.connect(0);
    assert_eq!(c.disconnect(a, 0), CoordinatorAction::Continue);
    let (d, _rd) = c.connect(0);
    assert_eq!((a, b, d), (1, 2, 3));
    assert_eq!(c.c.connected_workers(), 2);
    assert_eq!(c.c.workers_joined(), 3);
    assert_eq!(c.c.pending_task_count(), 2);
}

#[test]
fn nothing_is_sent_before_the_start() {
    let mut c = Coordinator::new(2, 2, 1, 100);
    let calls = RefCell::new(0u32);
    let count = |_: u64, _: CoordinatorCommand| {
        *calls.borrow_mut() += 1;
        true
    };
    assert_eq!(c.handle_internal_message(InternalMessage::WorkerConnected, 0, count), CoordinatorAction::Welcome(1));
    c.check_and_requeue_timed_out_tasks(TASK_TIMEOUT_NANOS * 2, count);
    assert!(!c.on_tick(AUTO_START_NANOS - 1, count));
    assert_eq!(*calls.borrow(), 0);
    assert_eq!(c.connected_workers(), 1);
    assert_eq!(c.pending_task_count(), 2);
    // the start is due ten seconds after the join
    assert!(c.on_tick(AUTO_START_NANOS, count));
    assert_eq!(*calls.borrow(), 1);
    assert_eq!(c.pending_task_count(), 1);
}

#[test]
fn a_join_delays_the_start() {
    let mut c = Node::new(2, 2, 1);
    let (_a, mut ra) = c.connect(5 * SECOND);
    assert!(!c.tick(AUTO_START_NANOS));
    assert!(ra.try_recv().is_err());
    assert!(c.tick(AUTO_START_NANOS + 5 * SECOND));
    assert_eq!(ra.try_recv().unwrap(), compute(0, 2, 2, 0, 1));
}

#[test]
fn hand_out_goes_first_worker_first_block() {
    let mut c = Coordinator::new(3, 4, 2, 100);
    c.handle_internal_message(InternalMessage::WorkerConnected, 0, refuse);
    c.handle_internal_message(InternalMessage::WorkerConnected, 0, refuse);
    assert_eq!(c.next_offer(), Some((1, compute(0, 3, 4, 0, 2))));
    c.offer_answered(true, 0);
    assert_eq!(c.next_offer(), Some((2, compute(1, 3, 4, 2, 4))));
    // the second worker's channel is closed: it is forgotten, block 1 waits
    c.offer_answered(false, 0);
    assert_eq!(c.next_offer(), None);
    assert_eq!(c.connected_workers(), 1);
    assert_eq!(c.pending_task_count(), 1);
    assert!(c.is_handed_out(0));
    assert!(!c.is_handed_out(1));
}

#[test]
fn every_offer_reaches_the_send_closure() {
    let mut c = Coordinator::new(2, 6, 2, 100);
    for _ in 0..2 {
        c.handle_internal_message(InternalMessage::WorkerConnected, 0, refuse);
    }
    let sent = RefCell::new(Vec::new());
    c.assign_tasks_to_idle_workers(0, |alias, cmd| {
        sent.borrow_mut().push((alias, cmd));
        true
    });
    assert_eq!(
        sent.into_inner(),
        vec![(1, compute(0, 2, 6, 0, 2)), (2, compute(1, 2, 6, 2, 4))]
    );
    assert_eq!(c.pending_task_count(), 1);
    assert_eq!(c.next_offer(), None);
}

#[test]
fn timeout_check_hands_the_block_out_again_once_started() {
    let mut c = Node::new(2, 1, 1);
    let (a, mut ra) = c.connect(0);
    assert!(c.tick(AUTO_START_NANOS));
    assert_eq!(ra.try_recv().unwrap(), compute(0, 2, 1, 0, 1));
    let (_b, mut rb) = c.connect(AUTO_START_NANOS);
    assert!(rb.try_recv().is_err());
    let senders = &c.senders;
    c.c.check_and_requeue_timed_out_tasks(AUTO_START_NANOS + TASK_TIMEOUT_NANOS + 1, |x, cmd| {
        senders.get(&x).map_or(false, |tx| tx.send(cmd).is_ok())
    });
    // block 0 went back to the queue and straight to the waiting worker
    assert_eq!(rb.try_recv().unwrap(), compute(0, 2, 1, 0, 1));
    assert!(ra.try_recv().is_err());
    assert_eq!(c.c.pending_task_count(), 0);
    assert_eq!(c.finish(0, a, vec![7, 7], AUTO_START_NANOS), CoordinatorAction::SaveImage);
}

#[test]
fn answer_for_unknown_block_sends_nothing() {
    let mut c = Coordinator::new(2, 2, 1, 100);
    c.handle_internal_message(InternalMessage::WorkerConnected, 0, refuse);
    let calls = RefCell::new(0u32);
    let action = c.handle_internal_message(
        InternalMessage::WorkerFinished { task_id: 0, alias: 1, data: vec![1, 2] },
        0,
        |_, _| {
            *calls.borrow_mut() += 1;
            true
        },
    );
    assert_eq!(action, CoordinatorAction::Continue);
    assert_eq!(*calls.borrow(), 0);
    assert_eq!(c.storage, vec![0, 0, 0, 0]);
    assert_eq!(c.pending_task_count(), 2);
}

#[test]
fn hand_out_pairs_workers_and_blocks_in_order() {
    let mut c = Coordinator::new(1, 5, 1, 100);
    for _ in 0..3 {
        c.handle_internal_message(InternalMessage::WorkerConnected, 0, refuse);
    }
    let sent = RefCell::new(Vec::new());
    c.assign_tasks_to_idle_workers(7, |alias, cmd| {
        sent.borrow_mut().push((alias, cmd));
        true
    });
    assert_eq!(
        sent.into_inner(),
        vec![
            (1, compute(0, 1, 5, 0, 1)),
            (2, compute(1, 1, 5, 1, 2)),
            (3, compute(2, 1, 5, 2, 3)),
        ]
    );
    assert_eq!(c.pending_task_count(), 2);
    assert!(c.is_handed_out(0) && c.is_handed_out(1) && c.is_handed_out(2));
    assert!(!c.is_handed_out(3));
}
