//! The coordinator's bookkeeping: the picture is cut into blocks of rows,
//! the blocks are queued, handed to idle workers, re-queued when a worker
//! is too slow or goes away, and merged into the picture when a worker
//! answers.
//!
//! Time is given to every operation as the number of nanoseconds since the
//! coordinator began to run, on a monotonic clock that the caller reads.
//! The caller also owns the workers' channels: the coordinator hands each
//! command, with the worker's number, to a `send` function of the caller,
//! and is told whether the channel took it.
use vstd::prelude::*;

use std::collections::{HashMap, VecDeque};

use crate::protocol::CoordinatorCommand;

verus! {

broadcast use vstd::std_specs::hash::group_hash_axioms;

/// A worker that has held a block for longer than this loses it.
pub const TASK_TIMEOUT_NANOS: u64 = 3_000_000_000;

/// Work starts on its own once no worker has joined for this long.
pub const AUTO_START_NANOS: u64 = 10_000_000_000;

/// A block of consecutive rows of the picture.
#[derive(Debug, Clone, Copy, PartialEq, Eq, Structural)]
pub struct Task {
    pub id: u32,
    pub start_row: u32,
    pub end_row: u32,
}

/// Number of blocks of `block_size` rows needed to cover `height` rows.
pub open spec fn block_count(height: nat, block_size: nat) -> nat {
    if block_size == 0 {
        0
    } else {
        ((height + block_size - 1) as nat / block_size) as nat
    }
}

/// Block number `k`: rows `k * block_size` up to the next block or the
/// bottom of the picture.
pub open spec fn row_block(height: u32, block_size: u32, k: int) -> Task {
    let start = k * block_size;
    let end = if start + block_size < height {
        start + block_size
    } else {
        height as int
    };
    Task { id: k as u32, start_row: start as u32, end_row: end as u32 }
}

/// The blocks of rows that the picture is cut into, in order.
pub open spec fn row_blocks(height: u32, block_size: u32) -> Seq<Task> {
    Seq::new(block_count(height as nat, block_size as nat), |k: int| row_block(height, block_size, k))
}

/// The command that hands block `t` of a `width` x `height` picture to a worker.
pub open spec fn compute_command(t: Task, width: u32, height: u32) -> CoordinatorCommand {
    CoordinatorCommand::Compute {
        task_id: t.id,
        width: width,
        height: height,
        start_row: t.start_row,
        end_row: t.end_row,
    }
}

/// Nanoseconds from `since` to `now`, zero when `now` comes first.
pub open spec fn elapsed(now: u64, since: u64) -> int {
    if now >= since {
        now - since
    } else {
        0
    }
}

/// Everything the coordinator knows about one connected worker.
pub struct WorkerState {
    /// The block the worker was last given, until it answers or loses it.
    pub current_task_id: Option<u32>,
    /// When it was given that block.
    pub assigned_at: Option<u64>,
}

/// The part of a worker's state that the bookkeeping reads.
pub struct WorkerView {
    pub current_task_id: Option<u32>,
    pub assigned_at: Option<u64>,
}

impl View for WorkerState {
    type V = WorkerView;

    open spec fn view(&self) -> WorkerView {
        WorkerView { current_task_id: self.current_task_id, assigned_at: self.assigned_at }
    }
}

/// A worker with no block.
pub open spec fn idle_view() -> WorkerView {
    WorkerView { current_task_id: None, assigned_at: None }
}

/// The coordinator's state as mathematical values.
pub struct CoordinatorView {
    /// Iteration count of every pixel, row after row.
    pub storage: Seq<u32>,
    pub width: u32,
    pub height: u32,
    pub max_iters: u32,
    /// Blocks waiting for a worker, first served first.
    pub pending: Seq<Task>,
    /// Blocks handed to a worker and not answered yet, by id.
    pub assigned: Map<u32, Task>,
    /// Connected workers, by number.
    pub workers: Map<u64, WorkerView>,
    /// Workers waiting for a block, first served first.
    pub idle: Seq<u64>,
    /// Whether blocks are handed out yet.
    pub started: bool,
    /// Number of workers that ever joined; the last one got this number.
    pub next_worker_num: u64,
    /// All blocks of the picture, as they were cut at the start.
    pub blocks: Seq<Task>,
    /// Every number given to a joining worker, in order.
    pub issued: Seq<u64>,
    /// When the last worker joined, or the work started; the run's start
    /// (time zero) before that.
    pub last_connection: u64,
}

/// What the caller is to do after a message was handled.
#[derive(Debug, Clone, Copy, PartialEq, Eq, Structural)]
pub enum CoordinatorAction {
    /// Nothing more is to be done.
    Continue,
    /// The joining worker is to be told its number `alias`.
    Welcome(u64),
    /// Every block is in: the picture in `storage` is to be written out.
    SaveImage,
}

/// Events that the connection handlers send to the coordinator.
pub enum InternalMessage {
    /// A worker said hello.
    WorkerConnected,
    /// The connection of worker `alias` ended.
    WorkerDisconnected { alias: u64 },
    /// Worker `alias` answered task `task_id` with `data`.
    WorkerFinished { task_id: u32, alias: u64, data: Vec<u32> },
}

/// The coordinator: picture, queues and workers.
pub struct Coordinator {
    pub storage: Vec<u32>,
    width: u32,
    height: u32,
    max_iters: u32,
    tasks: VecDeque<Task>,
    assigned_tasks: HashMap<u32, Task>,
    workers: HashMap<u64, WorkerState>,
    idle_workers: VecDeque<u64>,
    started: bool,
    next_worker_num: u64,
    blocks: Ghost<Seq<Task>>,
    issued: Ghost<Seq<u64>>,
    last_connection: u64,
}

impl View for Coordinator {
    type V = CoordinatorView;

    closed spec fn view(&self) -> CoordinatorView {
        CoordinatorView {
            storage: self.storage@,
            width: self.width,
            height: self.height,
            max_iters: self.max_iters,
            pending: self.tasks@,
            assigned: self.assigned_tasks@,
            workers: self.workers@.map_values(|s: WorkerState| s@),
            idle: self.idle_workers@,
            started: self.started,
            next_worker_num: self.next_worker_num,
            blocks: self.blocks@,
            issued: self.issued@,
            last_connection: self.last_connection,
        }
    }
}

// ---------------------------------------------------------------------------
// The invariant and the set of blocks still to come in.
// ---------------------------------------------------------------------------

/// The coordinator's invariant: every waiting or handed-out block is one of
/// the blocks the picture was cut into, no block is both waiting and handed
/// out or waiting twice, the handed-out blocks are finitely many, the
/// numbers given to workers are 1, 2, ... up to the counter and every
/// connected worker has one of them, and the workers' records are sound.
pub open spec fn wf(m: CoordinatorView) -> bool {
    &&& m.width * m.height <= u32::MAX
    &&& m.storage.len() == m.width * m.height
    &&& forall|k: int|
        0 <= k < m.blocks.len() ==> (#[trigger] m.blocks[k]).id == k && m.blocks[k].start_row
            < m.height
    &&& forall|i: int|
        0 <= i < m.pending.len() ==> {
            &&& (#[trigger] m.pending[i]).id < m.blocks.len()
            &&& m.blocks[m.pending[i].id as int] == m.pending[i]
            &&& !m.assigned.contains_key(m.pending[i].id)
        }
    &&& forall|i: int, j: int|
        0 <= i < j < m.pending.len() ==> (#[trigger] m.pending[i]).id != (#[trigger] m.pending[j]).id
    &&& forall|k: u32|
        #[trigger] m.assigned.contains_key(k) ==> k < m.blocks.len() && m.assigned[k]
            == m.blocks[k as int]
    &&& m.assigned.dom().finite()
    &&& forall|a: u64| #[trigger] m.workers.contains_key(a) ==> 1 <= a <= m.next_worker_num
    &&& m.issued.len() == m.next_worker_num
    &&& forall|i: int| 0 <= i < m.issued.len() ==> #[trigger] m.issued[i] == i + 1
    &&& records_sound(m)
}

/// What the workers' records say of the blocks: a block that a worker's
/// record names is not waiting, and no two workers' records name the same
/// block.
pub open spec fn records_sound(m: CoordinatorView) -> bool {
    &&& forall|a: u64, i: int|
        #![trigger m.workers[a], m.pending[i]]
        m.workers.contains_key(a) && 0 <= i < m.pending.len() ==> m.workers[a].current_task_id
            != Some(m.pending[i].id)
    &&& forall|a: u64, b: u64|
        #![trigger m.workers[a], m.workers[b]]
        m.workers.contains_key(a) && m.workers.contains_key(b) && a != b
            && m.workers[a].current_task_id is Some ==> m.workers[a].current_task_id
            != m.workers[b].current_task_id
}

/// `cmd` hands out one of the picture's blocks, with the picture's size.
pub open spec fn handed_block(m: CoordinatorView, cmd: CoordinatorCommand) -> bool {
    &&& cmd is Compute
    &&& cmd->task_id < m.blocks.len()
    &&& cmd == compute_command(m.blocks[cmd->task_id as int], m.width, m.height)
}

/// Whether a block with id `id` is waiting in `pending`.
pub open spec fn pending_has(pending: Seq<Task>, id: u32) -> bool {
    exists|i: int| 0 <= i < pending.len() && (#[trigger] pending[i]).id == id
}

/// Ids of the blocks that are still to come in: waiting or handed out.
pub open spec fn outstanding(m: CoordinatorView) -> Set<u32> {
    Set::new(|id: u32| pending_has(m.pending, id) || m.assigned.contains_key(id))
}

/// What no hand-out, re-queue or worker arrival changes.
pub open spec fn same_frame(a: CoordinatorView, b: CoordinatorView) -> bool {
    &&& a.storage == b.storage
    &&& a.width == b.width
    &&& a.height == b.height
    &&& a.max_iters == b.max_iters
    &&& a.blocks == b.blocks
}

// ---------------------------------------------------------------------------
// Handing blocks to idle workers.
// ---------------------------------------------------------------------------

/// Nothing is left to hand out, or nobody is left to take it.
pub open spec fn settled(m: CoordinatorView) -> bool {
    m.idle.len() == 0 || m.pending.len() == 0
}

/// One hand-out: the first idle worker is offered the first waiting block.
/// A known worker's channel gets the command; `sent` tells whether the
/// channel took it.  If it did, the worker holds the block from `now`;
/// otherwise the worker is forgotten and the block stays first in line.
pub open spec fn assign_step(m: CoordinatorView, sent: bool, now: u64) -> CoordinatorView {
    let a = m.idle[0];
    let t = m.pending[0];
    if m.workers.contains_key(a) {
        if sent {
            CoordinatorView {
                idle: m.idle.drop_first(),
                pending: m.pending.drop_first(),
                workers: m.workers.insert(
                    a,
                    WorkerView { current_task_id: Some(t.id), assigned_at: Some(now) },
                ),
                assigned: m.assigned.insert(t.id, t),
                ..m
            }
        } else {
            CoordinatorView {
                idle: m.idle.drop_first(),
                workers: m.workers.remove(a),
                ..m
            }
        }
    } else {
        CoordinatorView { idle: m.idle.drop_first(), ..m }
    }
}

/// The next offer: while a block waits and a worker is idle, the first idle
/// worker is to be sent the command for the first waiting block.
pub open spec fn offer(m: CoordinatorView) -> Option<(u64, CoordinatorCommand)> {
    if settled(m) {
        None
    } else {
        Some((m.idle[0], compute_command(m.pending[0], m.width, m.height)))
    }
}

/// Hand-outs one after the other, `outcomes[i]` telling whether the channel
/// of the i-th offer took the command, as long as there is an offer.
pub open spec fn assign_run(m: CoordinatorView, outcomes: Seq<bool>, now: u64) -> CoordinatorView
    decreases outcomes.len(),
{
    if outcomes.len() == 0 {
        m
    } else {
        let prev = assign_run(m, outcomes.drop_last(), now);
        if offer(prev) is None {
            prev
        } else {
            assign_step(prev, outcomes.last(), now)
        }
    }
}

/// `sent` is the answer to the offer of `m`: for a connected worker, what
/// `send` answered when called with the worker's number and the command;
/// for a worker no longer connected, no call and `false`.
pub open spec fn answer_fits<F: Fn(u64, CoordinatorCommand) -> bool>(
    m: CoordinatorView,
    send: F,
    sent: bool,
) -> bool {
    match offer(m) {
        Some((a, cmd)) => if m.workers.contains_key(a) {
            call_ensures(send, (a, cmd), sent)
        } else {
            !sent
        },
        None => true,
    }
}

/// The i-th answer of `outcomes` fits the i-th offer from `before`.
pub open spec fn answer_fits_at<F: Fn(u64, CoordinatorCommand) -> bool>(
    before: CoordinatorView,
    outcomes: Seq<bool>,
    now: u64,
    send: F,
    i: int,
) -> bool {
    answer_fits(assign_run(before, outcomes.take(i), now), send, outcomes[i])
}

/// `after` is what offering blocks from `before` through `send` until no
/// offer is left gives: every answer is the one `send` gave to the offer
/// made at that point.
pub open spec fn assign_outcome<F: Fn(u64, CoordinatorCommand) -> bool>(
    before: CoordinatorView,
    after: CoordinatorView,
    now: u64,
    send: F,
) -> bool {
    &&& offer(after) is None
    &&& exists|outcomes: Seq<bool>|
        {
            &&& after == assign_run(before, outcomes, now)
            &&& forall|i: int|
                0 <= i < outcomes.len() ==> #[trigger] answer_fits_at(before, outcomes, now, send, i)
        }
}

// ---------------------------------------------------------------------------
// Timeouts.
// ---------------------------------------------------------------------------

/// Whether worker `a` holds a block given to it more than the timeout ago.
pub open spec fn expired(m: CoordinatorView, a: u64, now: u64) -> bool {
    &&& m.workers.contains_key(a)
    &&& m.workers[a].current_task_id is Some
    &&& m.workers[a].assigned_at is Some
    &&& elapsed(now, m.workers[a].assigned_at->0) > TASK_TIMEOUT_NANOS
}

/// Worker `a` loses its block if it held it too long and the block is still
/// handed out: the block goes to the back of the queue and the worker to the
/// back of the idle line.
pub open spec fn requeue_one(m: CoordinatorView, a: u64, now: u64) -> CoordinatorView {
    let tid = m.workers[a].current_task_id->0;
    if expired(m, a, now) && m.assigned.contains_key(tid) {
        CoordinatorView {
            assigned: m.assigned.remove(tid),
            workers: m.workers.insert(a, idle_view()),
            idle: m.idle.push(a),
            pending: m.pending.push(m.assigned[tid]),
            ..m
        }
    } else {
        m
    }
}

/// `requeue_one` for the workers numbered 1 to `k`, in that order.
pub open spec fn requeue_upto(m: CoordinatorView, now: u64, k: nat) -> CoordinatorView
    decreases k,
{
    if k == 0 {
        m
    } else {
        requeue_one(requeue_upto(m, now, (k - 1) as nat), k as u64, now)
    }
}

/// What the timeout check from `before` gives: expired blocks re-queued,
/// then, once the work started, blocks offered through `send`.
pub open spec fn requeue_outcome<F: Fn(u64, CoordinatorCommand) -> bool>(
    before: CoordinatorView,
    after: CoordinatorView,
    now: u64,
    send: F,
) -> bool {
    let mid = requeue_upto(before, now, before.next_worker_num as nat);
    if before.started {
        assign_outcome(mid, after, now, send)
    } else {
        after == mid
    }
}

/// Whether the work is due to start at `now`: it has not, and no worker
/// joined for the auto-start delay.
pub open spec fn start_due(m: CoordinatorView, now: u64) -> bool {
    !m.started && elapsed(now, m.last_connection) >= AUTO_START_NANOS
}

/// What a clock tick from `before` gives: the timeout check, then, when the
/// start is due, the start (from which the auto-start delay counts again)
/// and blocks offered through `send`; `auto_started` tells whether the work
/// started on this tick.
pub open spec fn tick_outcome<F: Fn(u64, CoordinatorCommand) -> bool>(
    before: CoordinatorView,
    after: CoordinatorView,
    now: u64,
    send: F,
    auto_started: bool,
) -> bool {
    let mid = requeue_upto(before, now, before.next_worker_num as nat);
    if before.started {
        !auto_started && assign_outcome(mid, after, now, send)
    } else if start_due(before, now) {
        auto_started && assign_outcome(
            CoordinatorView { started: true, last_connection: now, ..mid },
            after,
            now,
            send,
        )
    } else {
        !auto_started && after == mid
    }
}

// ---------------------------------------------------------------------------
// Messages from the connection handlers.
// ---------------------------------------------------------------------------

/// A new worker gets the next number and joins the idle line at `now`.
pub open spec fn connect_view(m: CoordinatorView, now: u64) -> CoordinatorView {
    let id = (m.next_worker_num + 1) as u64;
    CoordinatorView {
        next_worker_num: id,
        last_connection: now,
        workers: m.workers.insert(id, idle_view()),
        idle: m.idle.push(id),
        issued: m.issued.push(id),
        ..m
    }
}

/// Whether a worker number is not `a`.
pub open spec fn other_than(a: u64) -> spec_fn(u64) -> bool {
    |x: u64| x != a
}

/// Worker `a` is forgotten, and its block, if still handed out, goes to the
/// back of the queue.
pub open spec fn disconnect_view(m: CoordinatorView, a: u64) -> CoordinatorView {
    let cur = if m.workers.contains_key(a) {
        m.workers[a].current_task_id
    } else {
        None
    };
    let m1 = CoordinatorView {
        workers: m.workers.remove(a),
        idle: m.idle.filter(other_than(a)),
        ..m
    };
    match cur {
        Some(tid) => if m.assigned.contains_key(tid) {
            CoordinatorView {
                assigned: m.assigned.remove(tid),
                pending: m.pending.push(m.assigned[tid]),
                ..m1
            }
        } else {
            m1
        },
        None => m1,
    }
}

/// `storage` with `data` written from position `start` on, when it fits.
pub open spec fn merge_block<T>(storage: Seq<T>, start: int, data: Seq<T>) -> Seq<T> {
    if 0 <= start && start + data.len() <= storage.len() {
        storage.take(start) + data + storage.skip(start + data.len())
    } else {
        storage
    }
}

/// Block `tid` came in from worker `a`: it is no longer handed out, the
/// worker holds nothing, and the rows are written into the picture.
pub open spec fn finish_view(m: CoordinatorView, tid: u32, a: u64, data: Seq<u32>) -> CoordinatorView {
    let task = m.assigned[tid];
    CoordinatorView {
        assigned: m.assigned.remove(tid),
        workers: if m.workers.contains_key(a) {
            m.workers.insert(a, idle_view())
        } else {
            m.workers
        },
        storage: merge_block(m.storage, task.start_row * m.width, data),
        ..m
    }
}

/// What an answer of worker `a` for block `tid` leads to.  An answer for a
/// block that is not handed out changes nothing.  Otherwise the block is
/// merged; when it was the last one, the picture is to be saved, else the
/// worker goes back to the idle line and blocks are offered through `send`.
pub open spec fn finish_outcome<F: Fn(u64, CoordinatorCommand) -> bool>(
    before: CoordinatorView,
    tid: u32,
    a: u64,
    data: Seq<u32>,
    after: CoordinatorView,
    action: CoordinatorAction,
    now: u64,
    send: F,
) -> bool {
    if !before.assigned.contains_key(tid) {
        after == before && action == CoordinatorAction::Continue
    } else {
        let m1 = finish_view(before, tid, a, data);
        if m1.pending.len() == 0 && m1.assigned.is_empty() {
            after == m1 && action == CoordinatorAction::SaveImage
        } else {
            action == CoordinatorAction::Continue && assign_outcome(
                CoordinatorView { idle: m1.idle.push(a), ..m1 },
                after,
                now,
                send,
            )
        }
    }
}

// ---------------------------------------------------------------------------
// Laws: every step keeps the invariant and loses no block.
// ---------------------------------------------------------------------------

/// One hand-out keeps the invariant, the blocks still to come in, the
/// picture, and whether the work started.
pub proof fn lemma_assign_step(m: CoordinatorView, sent: bool, now: u64)
    requires
        wf(m),
        !settled(m),
    ensures
        wf(assign_step(m, sent, now)),
        outstanding(assign_step(m, sent, now)) == outstanding(m),
        same_frame(m, assign_step(m, sent, now)),
        assign_step(m, sent, now).started == m.started,
        assign_step(m, sent, now).next_worker_num == m.next_worker_num,
{
    let s = assign_step(m, sent, now);
    let a = m.idle[0];
    let t = m.pending[0];
    if m.workers.contains_key(a) && sent {
        assert forall|i: int| 0 <= i < s.pending.len() implies {
            &&& (#[trigger] s.pending[i]).id < s.blocks.len()
            &&& s.blocks[s.pending[i].id as int] == s.pending[i]
            &&& !s.assigned.contains_key(s.pending[i].id)
        } by {
            assert(s.pending[i] == m.pending[i + 1]);
            assert(m.pending[0].id != m.pending[i + 1].id);
        }
        assert forall|i: int, j: int| 0 <= i < j < s.pending.len() implies (
        #[trigger] s.pending[i]).id != (#[trigger] s.pending[j]).id by {
            assert(s.pending[i] == m.pending[i + 1]);
            assert(s.pending[j] == m.pending[j + 1]);
        }
        assert forall|id: u32| #[trigger]
            outstanding(s).contains(id) == outstanding(m).contains(id) by {
            if id != t.id {
                if pending_has(m.pending, id) {
                    let i = choose|i: int| 0 <= i < m.pending.len() && (#[trigger] m.pending[i]).id == id;
                    assert(i != 0);
                    assert(s.pending[i - 1] == m.pending[i]);
                }
                if pending_has(s.pending, id) {
                    let i = choose|i: int| 0 <= i < s.pending.len() && (#[trigger] s.pending[i]).id == id;
                    assert(m.pending[i + 1] == s.pending[i]);
                }
            } else {
                assert(m.pending[0].id == id);
            }
        }
        assert(outstanding(s) =~= outstanding(m));
    } else {
        assert(outstanding(s) =~= outstanding(m));
    }
}

/// Handing out blocks until settled keeps the invariant, the blocks still
/// to come in, the picture, and whether the work started, whatever the
/// channels answer.
pub proof fn lemma_assign_run(m: CoordinatorView, outcomes: Seq<bool>, now: u64)
    requires
        wf(m),
    ensures
        wf(assign_run(m, outcomes, now)),
        outstanding(assign_run(m, outcomes, now)) == outstanding(m),
        same_frame(m, assign_run(m, outcomes, now)),
        assign_run(m, outcomes, now).started == m.started,
        assign_run(m, outcomes, now).next_worker_num == m.next_worker_num,
        assign_run(m, outcomes, now).last_connection == m.last_connection,
        offer(m) is None ==> assign_run(m, outcomes, now) == m,
    decreases outcomes.len(),
{
    if outcomes.len() > 0 {
        lemma_assign_run(m, outcomes.drop_last(), now);
        let prev = assign_run(m, outcomes.drop_last(), now);
        if offer(prev) is Some {
            lemma_assign_step(prev, outcomes.last(), now);
        }
    }
}

/// Whatever offers from `before` through `send` led to `after`, the
/// invariant, the blocks still to come in, the picture, the start and the
/// last connection time are kept, and a waiting block or an idle worker is
/// left over at most; when nothing could be offered, nothing changes.
pub proof fn lemma_assign_outcome<F: Fn(u64, CoordinatorCommand) -> bool>(
    before: CoordinatorView,
    after: CoordinatorView,
    now: u64,
    send: F,
)
    requires
        wf(before),
        assign_outcome(before, after, now, send),
    ensures
        wf(after),
        outstanding(after) == outstanding(before),
        same_frame(before, after),
        after.started == before.started,
        after.next_worker_num == before.next_worker_num,
        after.last_connection == before.last_connection,
        settled(after),
        settled(before) ==> after == before,
{
    let outcomes = choose|outcomes: Seq<bool>|
        {
            &&& after == assign_run(before, outcomes, now)
            &&& forall|i: int|
                0 <= i < outcomes.len() ==> #[trigger] answer_fits_at(before, outcomes, now, send, i)
        };
    lemma_assign_run(before, outcomes, now);
}

/// `send` answers that every channel took its command.
pub open spec fn all_accepted<F: Fn(u64, CoordinatorCommand) -> bool>(send: F) -> bool {
    forall|a: u64, cmd: CoordinatorCommand, r: bool| #[trigger] call_ensures(send, (a, cmd), r) ==> r
}

/// How many blocks a hand-out from `m` gives when every channel takes its
/// command: as many as there are idle workers or waiting blocks, the fewer.
pub open spec fn pairs(m: CoordinatorView) -> nat {
    if m.idle.len() <= m.pending.len() {
        m.idle.len()
    } else {
        m.pending.len()
    }
}

/// `m` after `j` offers that the channels took.
pub open spec fn paired(m: CoordinatorView, j: nat, now: u64) -> CoordinatorView
    decreases j,
{
    if j == 0 {
        m
    } else {
        assign_step(paired(m, (j - 1) as nat, now), true, now)
    }
}

/// The idle line holds connected workers, each once.
pub open spec fn idle_line_clean(m: CoordinatorView) -> bool {
    &&& forall|i: int| 0 <= i < m.idle.len() ==> m.workers.contains_key(#[trigger] m.idle[i])
    &&& forall|i: int, j: int| 0 <= i < j < m.idle.len() ==> #[trigger] m.idle[i] != #[trigger] m.idle[j]
}

proof fn lemma_paired(m: CoordinatorView, j: nat, now: u64)
    requires
        wf(m),
        idle_line_clean(m),
        j <= pairs(m),
    ensures
        paired(m, j, now).pending == m.pending.skip(j as int),
        paired(m, j, now).idle == m.idle.skip(j as int),
        forall|i: int|
            0 <= i < paired(m, j, now).idle.len() ==> paired(m, j, now).workers.contains_key(
                #[trigger] paired(m, j, now).idle[i],
            ),
        forall|i: int|
            0 <= i < j ==> {
                &&& paired(m, j, now).assigned.contains_key(#[trigger] m.pending[i].id)
                &&& paired(m, j, now).assigned[m.pending[i].id] == m.pending[i]
                &&& paired(m, j, now).workers.contains_key(m.idle[i])
                &&& paired(m, j, now).workers[m.idle[i]] == (WorkerView {
                    current_task_id: Some(m.pending[i].id),
                    assigned_at: Some(now),
                })
            },
    decreases j,
{
    if j > 0 {
        let jj = (j - 1) as nat;
        lemma_paired(m, jj, now);
        let p = paired(m, jj, now);
        let q = paired(m, j, now);
        assert(p.idle[0] == m.idle[jj as int]);
        assert(p.pending[0] == m.pending[jj as int]);
        assert(p.workers.contains_key(p.idle[0]));
        assert(q.pending =~= m.pending.skip(j as int));
        assert(q.idle =~= m.idle.skip(j as int));
        assert forall|i: int| 0 <= i < q.idle.len() implies q.workers.contains_key(
            #[trigger] q.idle[i],
        ) by {
            assert(q.idle[i] == p.idle[i + 1]);
        }
        assert forall|i: int| 0 <= i < j implies {
            &&& q.assigned.contains_key(#[trigger] m.pending[i].id)
            &&& q.assigned[m.pending[i].id] == m.pending[i]
            &&& q.workers.contains_key(m.idle[i])
            &&& q.workers[m.idle[i]] == (WorkerView {
                current_task_id: Some(m.pending[i].id),
                assigned_at: Some(now),
            })
        } by {
            if i < jj {
                assert(m.pending[i].id != m.pending[jj as int].id);
                assert(m.idle[i] != m.idle[jj as int]);
            }
        }
    }
}

proof fn lemma_run_is_paired<F: Fn(u64, CoordinatorCommand) -> bool>(
    m: CoordinatorView,
    outcomes: Seq<bool>,
    now: u64,
    send: F,
    j: nat,
)
    requires
        wf(m),
        idle_line_clean(m),
        all_accepted(send),
        j <= outcomes.len(),
        forall|i: int| 0 <= i < outcomes.len() ==> #[trigger] answer_fits_at(m, outcomes, now, send, i),
    ensures
        assign_run(m, outcomes.take(j as int), now) == paired(
            m,
            if j <= pairs(m) {
                j
            } else {
                pairs(m)
            },
            now,
        ),
    decreases j,
{
    if j == 0 {
        assert(outcomes.take(0) =~= Seq::<bool>::empty());
    } else {
        let jj = (j - 1) as nat;
        lemma_run_is_paired(m, outcomes, now, send, jj);
        assert(outcomes.take(j as int).drop_last() =~= outcomes.take(jj as int));
        let prev = assign_run(m, outcomes.take(jj as int), now);
        let kk = if jj <= pairs(m) {
            jj
        } else {
            pairs(m)
        };
        lemma_paired(m, kk, now);
        if jj < pairs(m) {
            assert(!settled(prev));
            assert(answer_fits_at(m, outcomes, now, send, jj as int));
            assert(prev.workers.contains_key(prev.idle[0]));
            let cmd = compute_command(prev.pending[0], prev.width, prev.height);
            assert(call_ensures(send, (prev.idle[0], cmd), outcomes[jj as int]));
            assert(outcomes.take(j as int).last() == outcomes[jj as int]);
        } else {
            assert(settled(prev));
        }
    }
}

/// When every channel takes its command and the idle line holds connected
/// workers, each once, a hand-out pairs them in order: the i-th idle worker
/// gets the i-th waiting block, for as many as there are workers or blocks,
/// and the rest of both lines stays as it was.
pub proof fn lemma_hand_out_pairs_in_order<F: Fn(u64, CoordinatorCommand) -> bool>(
    before: CoordinatorView,
    after: CoordinatorView,
    now: u64,
    send: F,
)
    requires
        wf(before),
        idle_line_clean(before),
        all_accepted(send),
        assign_outcome(before, after, now, send),
    ensures
        after.pending == before.pending.skip(pairs(before) as int),
        after.idle == before.idle.skip(pairs(before) as int),
        forall|i: int|
            0 <= i < pairs(before) ==> {
                &&& after.assigned.contains_key(#[trigger] before.pending[i].id)
                &&& after.assigned[before.pending[i].id] == before.pending[i]
                &&& after.workers[before.idle[i]] == (WorkerView {
                    current_task_id: Some(before.pending[i].id),
                    assigned_at: Some(now),
                })
            },
{
    let outcomes = choose|outcomes: Seq<bool>|
        {
            &&& after == assign_run(before, outcomes, now)
            &&& forall|i: int|
                0 <= i < outcomes.len() ==> #[trigger] answer_fits_at(before, outcomes, now, send, i)
        };
    lemma_run_is_paired(before, outcomes, now, send, outcomes.len());
    assert(outcomes.take(outcomes.len() as int) =~= outcomes);
    let kk = if outcomes.len() <= pairs(before) {
        outcomes.len()
    } else {
        pairs(before)
    };
    lemma_paired(before, kk, now);
    lemma_paired(before, pairs(before), now);
}

/// Every offer is for one of the picture's blocks, with the picture's size,
/// to the first waiting worker, and there is one exactly while a block and a
/// worker wait.
pub proof fn lemma_offer_is_a_block(m: CoordinatorView)
    requires
        wf(m),
    ensures
        offer(m) matches Some((a, cmd)) ==> {
            &&& a == m.idle[0]
            &&& handed_block(m, cmd)
        },
        offer(m) is None <==> settled(m),
{
}

/// Taking an expired block back keeps the invariant, the blocks still to
/// come in, the picture, and whether the work started.
pub proof fn lemma_requeue_one(m: CoordinatorView, a: u64, now: u64)
    requires
        wf(m),
    ensures
        wf(requeue_one(m, a, now)),
        outstanding(requeue_one(m, a, now)) == outstanding(m),
        same_frame(m, requeue_one(m, a, now)),
        requeue_one(m, a, now).started == m.started,
        requeue_one(m, a, now).next_worker_num == m.next_worker_num,
{
    let s = requeue_one(m, a, now);
    let tid = m.workers[a].current_task_id->0;
    if expired(m, a, now) && m.assigned.contains_key(tid) {
        let n = m.pending.len();
        assert(s.pending[n as int] == m.assigned[tid]);
        assert forall|i: int| 0 <= i < s.pending.len() implies {
            &&& (#[trigger] s.pending[i]).id < s.blocks.len()
            &&& s.blocks[s.pending[i].id as int] == s.pending[i]
            &&& !s.assigned.contains_key(s.pending[i].id)
        } by {
            if i < n {
                assert(s.pending[i] == m.pending[i]);
            }
        }
        assert forall|i: int, j: int| 0 <= i < j < s.pending.len() implies (
        #[trigger] s.pending[i]).id != (#[trigger] s.pending[j]).id by {
            assert(s.pending[i] == m.pending[i]);
            if j < n {
                assert(s.pending[j] == m.pending[j]);
            }
        }
        assert forall|id: u32| #[trigger]
            outstanding(s).contains(id) == outstanding(m).contains(id) by {
            if pending_has(m.pending, id) {
                let i = choose|i: int| 0 <= i < m.pending.len() && (#[trigger] m.pending[i]).id == id;
                assert(s.pending[i] == m.pending[i]);
            }
            if pending_has(s.pending, id) {
                let i = choose|i: int| 0 <= i < s.pending.len() && (#[trigger] s.pending[i]).id == id;
                if i < n {
                    assert(m.pending[i] == s.pending[i]);
                }
            }
            if id == tid {
                assert(s.pending[n as int].id == id);
            }
        }
        assert(outstanding(s) =~= outstanding(m));
    }
}

/// The timeout check over workers 1 to `k` keeps the invariant, the blocks
/// still to come in, the picture, and whether the work started.
pub proof fn lemma_requeue_upto(m: CoordinatorView, now: u64, k: nat)
    requires
        wf(m),
    ensures
        wf(requeue_upto(m, now, k)),
        outstanding(requeue_upto(m, now, k)) == outstanding(m),
        same_frame(m, requeue_upto(m, now, k)),
        requeue_upto(m, now, k).started == m.started,
        requeue_upto(m, now, k).next_worker_num == m.next_worker_num,
        requeue_upto(m, now, k).last_connection == m.last_connection,
    decreases k,
{
    if k > 0 {
        lemma_requeue_upto(m, now, (k - 1) as nat);
        lemma_requeue_one(requeue_upto(m, now, (k - 1) as nat), k as u64, now);
    }
}

/// A worker joining keeps the invariant, the blocks still to come in, the
/// picture, and whether the work started.
pub proof fn lemma_connect(m: CoordinatorView, now: u64)
    requires
        wf(m),
        m.next_worker_num < u64::MAX,
    ensures
        wf(connect_view(m, now)),
        outstanding(connect_view(m, now)) == outstanding(m),
        same_frame(m, connect_view(m, now)),
        connect_view(m, now).started == m.started,
        !m.workers.contains_key((m.next_worker_num + 1) as u64),
        !m.issued.contains((m.next_worker_num + 1) as u64),
{
    assert(outstanding(connect_view(m, now)) =~= outstanding(m));
    if m.issued.contains((m.next_worker_num + 1) as u64) {
        let i = choose|i: int| 0 <= i < m.issued.len() && m.issued[i] == (m.next_worker_num + 1) as u64;
        assert(m.issued[i] == i + 1);
    }
}

/// A worker leaving keeps the invariant, the blocks still to come in (its
/// block goes back to the queue), the picture, and whether the work
/// started.
pub proof fn lemma_disconnect(m: CoordinatorView, a: u64)
    requires
        wf(m),
    ensures
        wf(disconnect_view(m, a)),
        outstanding(disconnect_view(m, a)) == outstanding(m),
        same_frame(m, disconnect_view(m, a)),
        disconnect_view(m, a).started == m.started,
        disconnect_view(m, a).next_worker_num == m.next_worker_num,
{
    let s = disconnect_view(m, a);
    let cur = if m.workers.contains_key(a) {
        m.workers[a].current_task_id
    } else {
        None
    };
    if cur is Some && m.assigned.contains_key(cur->0) {
        let tid = cur->0;
        let n = m.pending.len();
        assert(s.pending[n as int] == m.assigned[tid]);
        assert forall|i: int| 0 <= i < s.pending.len() implies {
            &&& (#[trigger] s.pending[i]).id < s.blocks.len()
            &&& s.blocks[s.pending[i].id as int] == s.pending[i]
            &&& !s.assigned.contains_key(s.pending[i].id)
        } by {
            if i < n {
                assert(s.pending[i] == m.pending[i]);
            }
        }
        assert forall|i: int, j: int| 0 <= i < j < s.pending.len() implies (
        #[trigger] s.pending[i]).id != (#[trigger] s.pending[j]).id by {
            assert(s.pending[i] == m.pending[i]);
            if j < n {
                assert(s.pending[j] == m.pending[j]);
            }
        }
        assert forall|id: u32| #[trigger]
            outstanding(s).contains(id) == outstanding(m).contains(id) by {
            if pending_has(m.pending, id) {
                let i = choose|i: int| 0 <= i < m.pending.len() && (#[trigger] m.pending[i]).id == id;
                assert(s.pending[i] == m.pending[i]);
            }
            if pending_has(s.pending, id) {
                let i = choose|i: int| 0 <= i < s.pending.len() && (#[trigger] s.pending[i]).id == id;
                if i < n {
                    assert(m.pending[i] == s.pending[i]);
                }
            }
            if id == tid {
                assert(s.pending[n as int].id == id);
            }
        }
        assert(outstanding(s) =~= outstanding(m));
    } else {
        assert(outstanding(s) =~= outstanding(m));
    }
}

/// An answer for a handed-out block keeps the invariant, keeps the size of
/// the picture, and removes exactly that block from those still to come in.
pub proof fn lemma_finish(m: CoordinatorView, tid: u32, a: u64, data: Seq<u32>)
    requires
        wf(m),
        m.assigned.contains_key(tid),
    ensures
        wf(finish_view(m, tid, a, data)),
        outstanding(finish_view(m, tid, a, data)) == outstanding(m).remove(tid),
        finish_view(m, tid, a, data).storage.len() == m.storage.len(),
        finish_view(m, tid, a, data).blocks == m.blocks,
        finish_view(m, tid, a, data).started == m.started,
        finish_view(m, tid, a, data).next_worker_num == m.next_worker_num,
{
    let s = finish_view(m, tid, a, data);
    assert forall|id: u32| #[trigger]
        outstanding(s).contains(id) == outstanding(m).remove(tid).contains(id) by {
        if pending_has(m.pending, id) {
            let i = choose|i: int| 0 <= i < m.pending.len() && (#[trigger] m.pending[i]).id == id;
            assert(m.pending[i].id != tid);
        }
    }
    assert(outstanding(s) =~= outstanding(m).remove(tid));
}

// ---------------------------------------------------------------------------
// Cutting the picture into blocks.
// ---------------------------------------------------------------------------

pub(crate) proof fn lemma_block_count(height: int, block_size: int, k: int)
    requires
        block_size > 0,
        height >= 0,
        k >= 0,
        k * block_size >= height,
        k == 0 || (k - 1) * block_size < height,
    ensures
        block_count(height as nat, block_size as nat) == k,
{
    let x = height + block_size - 1;
    let r = x - k * block_size;
    if k == 0 {
        assert(k * block_size == 0) by (nonlinear_arith)
            requires
                k == 0,
        ;
    } else {
        assert((k - 1) * block_size == k * block_size - block_size) by (nonlinear_arith);
    }
    assert(0 <= r < block_size);
    vstd::arithmetic::div_mod::lemma_fundamental_div_mod_converse(x, block_size, k, r);
}

impl Coordinator {
    /// A coordinator for a `width` x `height` picture cut into blocks of
    /// `block_size` rows, all waiting, with no worker and a blank picture.
    pub fn new(width: u32, height: u32, block_size: u32, max_iters: u32) -> (c: Self)
        requires
            block_size > 0,
            width * height <= u32::MAX,
        ensures
            wf(c@),
            c@.width == width,
            c@.height == height,
            c@.max_iters == max_iters,
            c@.storage == Seq::new((width * height) as nat, |i: int| 0u32),
            c@.blocks == row_blocks(height, block_size),
            c@.pending == row_blocks(height, block_size),
            c@.assigned.is_empty(),
            c@.workers.is_empty(),
            c@.idle.len() == 0,
            !c@.started,
            c@.next_worker_num == 0,
            c@.issued.len() == 0,
            c@.last_connection == 0,
    {
        let mut tasks: VecDeque<Task> = VecDeque::new();
        let mut start: u64 = 0;
        let mut task_id: u32 = 0;
        while start < height as u64
            invariant
                block_size > 0,
                start == task_id * block_size,
                task_id <= height,
                task_id == 0 || (task_id - 1) * block_size < height,
                tasks@ == Seq::new(task_id as nat, |k: int| row_block(height, block_size, k)),
                forall|k: int|
                    0 <= k < task_id ==> (#[trigger] row_block(height, block_size, k)).start_row
                        < height,
            decreases height - task_id,
        {
            assert(task_id <= start) by (nonlinear_arith)
                requires
                    start == task_id * block_size,
                    block_size > 0,
                    task_id >= 0,
            ;
            assert((task_id + 1) * block_size == start + block_size) by (nonlinear_arith)
                requires
                    start == task_id * block_size,
            ;
            let next = start + block_size as u64;
            let end_row: u32 = if next < height as u64 {
                next as u32
            } else {
                height
            };
            let task = Task { id: task_id, start_row: start as u32, end_row };
            assert(task == row_block(height, block_size, task_id as int));
            tasks.push_back(task);
            assert(tasks@ =~= Seq::new((task_id + 1) as nat, |k: int| row_block(height, block_size, k)));
            start = next;
            task_id = task_id + 1;
        }
        proof {
            lemma_block_count(height as int, block_size as int, task_id as int);
        }
        let c = Coordinator {
            storage: vec![0u32; (width * height) as usize],
            width,
            height,
            max_iters,
            tasks,
            assigned_tasks: HashMap::new(),
            workers: HashMap::new(),
            idle_workers: VecDeque::new(),
            started: false,
            next_worker_num: 0,
            blocks: Ghost(row_blocks(height, block_size)),
            issued: Ghost(Seq::empty()),
            last_connection: 0,
        };
        assert(c@.storage =~= Seq::new((width * height) as nat, |i: int| 0u32));
        assert(c@.workers =~= Map::empty());
        assert(c@.pending =~= row_blocks(height, block_size));
        c
    }

    /// The next offer: the first idle worker and the command for the first
    /// waiting block, while both lines are non-empty.
    pub fn next_offer(&self) -> (next: Option<(u64, CoordinatorCommand)>)
        ensures
            next == offer(self@),
    {
        if self.idle_workers.len() > 0 && self.tasks.len() > 0 {
            let alias = self.idle_workers[0];
            let task = self.tasks[0];
            let cmd = CoordinatorCommand::Compute {
                task_id: task.id,
                width: self.width,
                height: self.height,
                start_row: task.start_row,
                end_row: task.end_row,
            };
            Some((alias, cmd))
        } else {
            None
        }
    }

    /// Takes the answer to the current offer: `sent` tells whether the
    /// worker's channel took the command.  If it did, the worker holds the
    /// block from `now`; otherwise the worker is forgotten and the block
    /// stays first in line.  The worker leaves the idle line either way.
    pub fn offer_answered(&mut self, sent: bool, now: u64)
        requires
            wf(old(self)@),
            offer(old(self)@) is Some,
        ensures
            wf(final(self)@),
            final(self)@ == assign_step(old(self)@, sent, now),
    {
        let ghost before = self@;
        proof {
            lemma_assign_step(before, sent, now);
        }
        let alias = self.idle_workers.pop_front().unwrap();
        let task = self.tasks.pop_front().unwrap();
        let known = self.workers.contains_key(&alias);
        if known && sent {
            self.workers.insert(
                alias,
                WorkerState { current_task_id: Some(task.id), assigned_at: Some(now) },
            );
            self.assigned_tasks.insert(task.id, task);
        } else {
            self.workers.remove(&alias);
            self.tasks.push_front(task);
        }
        proof {
            let step = assign_step(before, sent, now);
            assert(self@.workers =~= step.workers);
            assert(self@.pending =~= step.pending);
            assert(self@.idle =~= step.idle);
            assert(self@.assigned =~= step.assigned);
            assert(self@ == step);
        }
    }

    /// Offers waiting blocks to idle workers, first to first, until one line
    /// is empty: each offer to a connected worker is handed to `send` with
    /// the worker's number and the command, and `send` tells whether the
    /// worker's channel took it.  A worker whose channel refuses is
    /// forgotten and the block stays first in line.  Afterwards one of the
    /// two lines is empty.
    pub fn assign_tasks_to_idle_workers<F: Fn(u64, CoordinatorCommand) -> bool>(
        &mut self,
        now: u64,
        send: F,
    )
        requires
            wf(old(self)@),
            forall|a: u64, cmd: CoordinatorCommand| call_requires(send, (a, cmd)),
        ensures
            wf(final(self)@),
            assign_outcome(old(self)@, final(self)@, now, send),
    {
        let ghost pre = self@;
        let ghost mut outcomes: Seq<bool> = Seq::empty();
        let mut next = self.next_offer();
        while next.is_some()
            invariant
                wf(pre),
                forall|a: u64, cmd: CoordinatorCommand| call_requires(send, (a, cmd)),
                self@ == assign_run(pre, outcomes, now),
                wf(self@),
                next == offer(self@),
                forall|i: int|
                    0 <= i < outcomes.len() ==> #[trigger] answer_fits_at(pre, outcomes, now, send, i),
            decreases self@.idle.len(),
        {
            let ghost before = self@;
            let (alias, cmd) = next.unwrap();
            let sent = if self.workers.contains_key(&alias) {
                send(alias, cmd)
            } else {
                false
            };
            self.offer_answered(sent, now);
            proof {
                assert(answer_fits(before, send, sent));
                let longer = outcomes.push(sent);
                assert(longer.drop_last() =~= outcomes);
                assert(longer.take(outcomes.len() as int) =~= outcomes);
                assert forall|i: int| 0 <= i < longer.len() implies #[trigger] answer_fits_at(
                    pre,
                    longer,
                    now,
                    send,
                    i,
                ) by {
                    if i < outcomes.len() {
                        assert(longer.take(i) =~= outcomes.take(i));
                        assert(answer_fits_at(pre, outcomes, now, send, i));
                    }
                }
                outcomes = longer;
            }
            next = self.next_offer();
        }
        proof {
            assert(assign_run(pre, outcomes, now) == self@);
        }
    }
}

impl Coordinator {
    /// Takes its block back from worker `id` if it held it too long and the
    /// block is still handed out.
    fn requeue_if_expired(&mut self, id: u64, now: u64)
        ensures
            final(self)@ == requeue_one(old(self)@, id, now),
    {
        let ghost before = self@;
        let due = match self.workers.get(&id) {
            Some(state) => match (state.current_task_id, state.assigned_at) {
                (Some(tid), Some(at)) => if now >= at && now - at > TASK_TIMEOUT_NANOS {
                    Some(tid)
                } else {
                    None
                },
                _ => None,
            },
            None => None,
        };
        if let Some(tid) = due {
            match self.assigned_tasks.remove(&tid) {
                Some(task) => {
                    match self.workers.remove(&id) {
                        Some(state) => {
                            self.workers.insert(
                                id,
                                WorkerState { current_task_id: None, assigned_at: None },
                            );
                        },
                        None => {},
                    }
                    self.idle_workers.push_back(id);
                    self.tasks.push_back(task);
                    proof {
                        let after = requeue_one(before, id, now);
                        assert(self@.workers =~= after.workers);
                        assert(self@.assigned =~= after.assigned);
                    }
                },
                None => {
                    proof {
                        assert(self@.assigned =~= before.assigned);
                    }
                },
            }
        }
    }

    /// Re-queues the blocks that workers held for more than the timeout,
    /// examining the workers in the order of their numbers.
    fn requeue_timed_out(&mut self, now: u64)
        requires
            wf(old(self)@),
        ensures
            wf(final(self)@),
            final(self)@ == requeue_upto(old(self)@, now, old(self)@.next_worker_num as nat),
    {
        let ghost pre = self@;
        let mut k: u64 = 0;
        while k < self.next_worker_num
            invariant
                wf(pre),
                k <= pre.next_worker_num,
                self@ == requeue_upto(pre, now, k as nat),
            decreases pre.next_worker_num - k,
        {
            proof {
                lemma_requeue_upto(pre, now, k as nat);
            }
            k = k + 1;
            self.requeue_if_expired(k, now);
        }
        proof {
            lemma_requeue_upto(pre, now, k as nat);
        }
    }

    /// Re-queues the blocks that workers held for more than the timeout,
    /// examining the workers in the order of their numbers; then, once the
    /// work started, offers blocks to idle workers through `send`.
    pub fn check_and_requeue_timed_out_tasks<F: Fn(u64, CoordinatorCommand) -> bool>(
        &mut self,
        now: u64,
        send: F,
    )
        requires
            wf(old(self)@),
            forall|a: u64, cmd: CoordinatorCommand| call_requires(send, (a, cmd)),
        ensures
            wf(final(self)@),
            requeue_outcome(old(self)@, final(self)@, now, send),
    {
        let ghost pre = self@;
        self.requeue_timed_out(now);
        proof {
            lemma_requeue_upto(pre, now, pre.next_worker_num as nat);
        }
        if self.started {
            self.assign_tasks_to_idle_workers(now, send);
        }
    }

    /// The coordinator's clock tick: the timeout check, then, if the work has
    /// not started and no worker joined for the auto-start delay, the start
    /// and a first round of offers through `send`.  Returns whether the work
    /// started now.
    pub fn on_tick<F: Fn(u64, CoordinatorCommand) -> bool>(
        &mut self,
        now: u64,
        send: F,
    ) -> (auto_started: bool)
        requires
            wf(old(self)@),
            forall|a: u64, cmd: CoordinatorCommand| call_requires(send, (a, cmd)),
        ensures
            wf(final(self)@),
            tick_outcome(old(self)@, final(self)@, now, send, auto_started),
    {
        let ghost pre = self@;
        self.requeue_timed_out(now);
        let ghost mid = self@;
        proof {
            lemma_requeue_upto(pre, now, pre.next_worker_num as nat);
        }
        if self.started {
            self.assign_tasks_to_idle_workers(now, send);
            false
        } else if now >= self.last_connection && now - self.last_connection >= AUTO_START_NANOS {
            self.started = true;
            self.last_connection = now;
            proof {
                assert(self@ == CoordinatorView { started: true, last_connection: now, ..mid });
            }
            self.assign_tasks_to_idle_workers(now, send);
            true
        } else {
            false
        }
    }
}

/// What handling `msg` at `now` from `before` leads to.  A joining worker is
/// to be told the number after the last one given and, once the work
/// started, blocks are offered through `send`; a leaving worker's block is
/// re-queued, with nothing offered.
pub open spec fn message_outcome<F: Fn(u64, CoordinatorCommand) -> bool>(
    before: CoordinatorView,
    msg: InternalMessage,
    after: CoordinatorView,
    action: CoordinatorAction,
    now: u64,
    send: F,
) -> bool {
    match msg {
        InternalMessage::WorkerConnected => {
            &&& action == CoordinatorAction::Welcome((before.next_worker_num + 1) as u64)
            &&& if before.started {
                assign_outcome(connect_view(before, now), after, now, send)
            } else {
                after == connect_view(before, now)
            }
        },
        InternalMessage::WorkerDisconnected { alias } => {
            &&& action == CoordinatorAction::Continue
            &&& after == disconnect_view(before, alias)
        },
        InternalMessage::WorkerFinished { task_id, alias, data } => finish_outcome(
            before,
            task_id,
            alias,
            data@,
            after,
            action,
            now,
            send,
        ),
    }
}

impl Coordinator {
    /// Writes `data` into the picture from the first pixel of row
    /// `start_row` on, if it fits.
    fn merge_rows(&mut self, start_row: u32, data: &Vec<u32>)
        requires
            old(self)@.width * old(self)@.height <= u32::MAX,
            old(self)@.storage.len() == old(self)@.width * old(self)@.height,
            start_row < old(self)@.height,
        ensures
            final(self)@ == (CoordinatorView {
                storage: merge_block(old(self)@.storage, start_row * old(self)@.width, data@),
                ..old(self)@
            }),
    {
        let ghost before = self@;
        assert(start_row * self.width <= self.width * self.height) by (nonlinear_arith)
            requires
                start_row < self.height,
        ;
        let start_idx = (start_row * self.width) as usize;
        let len = data.len();
        if start_idx <= self.storage.len() && len <= self.storage.len() - start_idx {
            let mut i: usize = 0;
            while i < len
                invariant
                    start_idx + len <= self.storage.len(),
                    len == data@.len(),
                    i <= len,
                    self.storage@.len() == before.storage.len(),
                    forall|j: int|
                        0 <= j < self.storage@.len() ==> #[trigger] self.storage@[j] == if start_idx
                            <= j < start_idx + i {
                            data@[j - start_idx]
                        } else {
                            before.storage[j]
                        },
                    self.width == before.width,
                    self.height == before.height,
                    self.max_iters == before.max_iters,
                    self.tasks@ == before.pending,
                    self.assigned_tasks@ == before.assigned,
                    self@.workers == before.workers,
                    self.idle_workers@ == before.idle,
                    self.started == before.started,
                    self.next_worker_num == before.next_worker_num,
                    self.blocks@ == before.blocks,
                    self.issued@ == before.issued,
                    self.last_connection == before.last_connection,
                decreases len - i,
            {
                self.storage.set(start_idx + i, data[i]);
                i = i + 1;
            }
            assert(self.storage@ =~= merge_block(before.storage, start_row * before.width, data@));
        } else {
            assert(self.storage@ =~= merge_block(before.storage, start_row * before.width, data@));
        }
    }

    /// Handles one event of the connection handlers at `now`: a worker
    /// joining (it gets the next number, which the caller is to send back to
    /// it, and once the work started blocks are offered), leaving (its block
    /// is re-queued), or answering (the block is merged, and the picture is
    /// complete or blocks are offered).  Offers go through `send`, with the
    /// worker's number and the command, as in `assign_tasks_to_idle_workers`;
    /// the action says what the caller is to do besides.
    pub fn handle_internal_message<F: Fn(u64, CoordinatorCommand) -> bool>(
        &mut self,
        msg: InternalMessage,
        now: u64,
        send: F,
    ) -> (action: CoordinatorAction)
        requires
            wf(old(self)@),
            msg is WorkerConnected ==> old(self)@.next_worker_num < u64::MAX,
            forall|a: u64, cmd: CoordinatorCommand| call_requires(send, (a, cmd)),
        ensures
            wf(final(self)@),
            message_outcome(old(self)@, msg, final(self)@, action, now, send),
    {
        let ghost pre = self@;
        match msg {
            InternalMessage::WorkerConnected => {
                self.next_worker_num = self.next_worker_num + 1;
                let alias = self.next_worker_num;
                self.workers.insert(alias, WorkerState { current_task_id: None, assigned_at: None });
                self.idle_workers.push_back(alias);
                self.issued = Ghost(self.issued@.push(alias));
                self.last_connection = now;
                proof {
                    assert(self@.workers =~= connect_view(pre, now).workers);
                    assert(self@ == connect_view(pre, now));
                    lemma_connect(pre, now);
                }
                if self.started {
                    self.assign_tasks_to_idle_workers(now, send);
                }
                CoordinatorAction::Welcome(alias)
            },
            InternalMessage::WorkerDisconnected { alias } => {
                let current = match self.workers.get(&alias) {
                    Some(state) => state.current_task_id,
                    None => None,
                };
                self.workers.remove(&alias);
                let n = self.idle_workers.len();
                let mut kept: VecDeque<u64> = VecDeque::new();
                let mut i: usize = 0;
                while i < n
                    invariant
                        n == self.idle_workers@.len(),
                        i <= n,
                        kept@ == self.idle_workers@.take(i as int).filter(other_than(alias)),
                    decreases n - i,
                {
                    let x = self.idle_workers[i];
                    proof {
                        reveal_with_fuel(Seq::filter, 1);
                        assert(self.idle_workers@.take(i + 1).drop_last() =~= self.idle_workers@.take(
                            i as int,
                        ));
                    }
                    if x != alias {
                        kept.push_back(x);
                    }
                    i = i + 1;
                }
                proof {
                    assert(self.idle_workers@.take(n as int) =~= self.idle_workers@);
                }
                self.idle_workers = kept;
                if let Some(tid) = current {
                    if let Some(task) = self.assigned_tasks.remove(&tid) {
                        self.tasks.push_back(task);
                    }
                }
                proof {
                    let after = disconnect_view(pre, alias);
                    assert(self@.workers =~= after.workers);
                    assert(self@.assigned =~= after.assigned);
                    assert(self@ == after);
                    lemma_disconnect(pre, alias);
                }
                CoordinatorAction::Continue
            },
            InternalMessage::WorkerFinished { task_id, alias, data } => {
                match self.assigned_tasks.remove(&task_id) {
                    Some(task) => {
                        if self.workers.contains_key(&alias) {
                            self.workers.insert(
                                alias,
                                WorkerState { current_task_id: None, assigned_at: None },
                            );
                        }
                        self.merge_rows(task.start_row, &data);
                        proof {
                            let after = finish_view(pre, task_id, alias, data@);
                            assert(self@.workers =~= after.workers);
                            assert(self@.assigned =~= after.assigned);
                            assert(self@ == after);
                            lemma_finish(pre, task_id, alias, data@);
                        }
                        if self.tasks.len() == 0 && self.assigned_tasks.is_empty() {
                            CoordinatorAction::SaveImage
                        } else {
                            self.idle_workers.push_back(alias);
                            self.assign_tasks_to_idle_workers(now, send);
                            CoordinatorAction::Continue
                        }
                    },
                    None => {
                        proof {
                            assert(self@.assigned =~= pre.assigned);
                        }
                        CoordinatorAction::Continue
                    },
                }
            },
        }
    }
}

// ---------------------------------------------------------------------------
// Laws on the picture as a whole.
// ---------------------------------------------------------------------------

proof fn lemma_block_in_range(height: int, block_size: int, k: int)
    requires
        block_size > 0,
        height >= 0,
        k >= 0,
    ensures
        k < block_count(height as nat, block_size as nat) <==> k * block_size < height,
{
    let x = height + block_size - 1;
    let c = x / block_size;
    let r = x % block_size;
    vstd::arithmetic::div_mod::lemma_fundamental_div_mod(x, block_size);
    assert(0 <= r < block_size);
    assert(block_count(height as nat, block_size as nat) == c);
    if k < c {
        assert(k * block_size <= (c - 1) * block_size) by (nonlinear_arith)
            requires
                k <= c - 1,
                block_size > 0,
        ;
        assert((c - 1) * block_size == c * block_size - block_size) by (nonlinear_arith);
        assert(block_size * c == c * block_size) by (nonlinear_arith);
    } else {
        assert(k * block_size >= c * block_size) by (nonlinear_arith)
            requires
                k >= c,
                block_size > 0,
        ;
        assert(block_size * c == c * block_size) by (nonlinear_arith);
    }
}

/// Every row of the picture lies in exactly one block: block number
/// `row / block_size`.
pub proof fn lemma_blocks_cover_rows(height: u32, block_size: u32, row: int)
    requires
        block_size > 0,
        0 <= row < height,
    ensures
        0 <= row / (block_size as int) < row_blocks(height, block_size).len(),
        row_blocks(height, block_size)[row / (block_size as int)].start_row <= row
            < row_blocks(height, block_size)[row / (block_size as int)].end_row,
        forall|j: int|
            0 <= j < row_blocks(height, block_size).len() && (#[trigger] row_blocks(
                height,
                block_size,
            )[j]).start_row <= row < row_blocks(height, block_size)[j].end_row ==> j == row / (
            block_size as int),
{
    let bs = block_size as int;
    let k = row / bs;
    vstd::arithmetic::div_mod::lemma_fundamental_div_mod(row, bs);
    assert(bs * k == k * bs) by (nonlinear_arith);
    assert(0 <= k) by (nonlinear_arith)
        requires
            row >= 0,
            bs > 0,
            k == row / bs,
    ;
    lemma_block_in_range(height as int, bs, k);
    assert((k + 1) * bs == k * bs + bs) by (nonlinear_arith);
    assert forall|j: int|
        0 <= j < row_blocks(height, block_size).len() && (#[trigger] row_blocks(
            height,
            block_size,
        )[j]).start_row <= row < row_blocks(height, block_size)[j].end_row implies j == k by {
        lemma_block_in_range(height as int, bs, j);
        let rr = row - j * bs;
        assert(rr < bs);
        vstd::arithmetic::div_mod::lemma_fundamental_div_mod_converse(row, bs, j, rr);
    }
}

/// Consecutive blocks meet: the first starts at row 0, each ends where the
/// next starts, and the last ends at the bottom of the picture.
pub proof fn lemma_blocks_contiguous(height: u32, block_size: u32)
    requires
        block_size > 0,
    ensures
        row_blocks(height, block_size).len() > 0 ==> row_blocks(height, block_size)[0].start_row
            == 0,
        forall|k: int|
            0 <= k < row_blocks(height, block_size).len() - 1 ==> (#[trigger] row_blocks(
                height,
                block_size,
            )[k]).end_row == row_blocks(height, block_size)[k + 1].start_row,
        row_blocks(height, block_size).len() > 0 ==> row_blocks(height, block_size)[row_blocks(
            height,
            block_size,
        ).len() - 1].end_row == height,
        height > 0 <==> row_blocks(height, block_size).len() > 0,
{
    let bs = block_size as int;
    let n = row_blocks(height, block_size).len() as int;
    lemma_block_in_range(height as int, bs, 0);
    assert(0 * bs == 0);
    assert forall|k: int|
        0 <= k < n - 1 implies (#[trigger] row_blocks(height, block_size)[k]).end_row
        == row_blocks(height, block_size)[k + 1].start_row by {
        lemma_block_in_range(height as int, bs, k + 1);
        assert((k + 1) * bs == k * bs + bs) by (nonlinear_arith);
    }
    if n > 0 {
        lemma_block_in_range(height as int, bs, n);
        assert(n * bs == (n - 1) * bs + bs) by (nonlinear_arith);
    }
}

/// The rows a worker computed for the block starting at `start_row`, laid
/// out row by row, land where they belong: after the merge, the pixel in row
/// `start_row + r`, column `c` of the picture is the worker's value for row
/// `r`, column `c` of its block.
pub proof fn lemma_block_lands_in_place(
    storage: Seq<u32>,
    width: u32,
    start_row: u32,
    data: Seq<u32>,
    r: int,
    c: int,
)
    requires
        start_row * width + data.len() <= storage.len(),
        0 <= r,
        0 <= c < width,
        crate::worker::pixel_index(width as int, r, c) < data.len(),
    ensures
        merge_block(storage, start_row * width, data)[crate::worker::pixel_index(
            width as int,
            start_row + r,
            c,
        )] == data[crate::worker::pixel_index(width as int, r, c)],
{
    assert((start_row + r) * width + c == start_row * width + (r * width + c)) by (nonlinear_arith);
    assert(0 <= r * width) by (nonlinear_arith)
        requires
            0 <= r,
    ;
    let merged = merge_block(storage, start_row * width, data);
    let i = start_row * width + (r * width + c);
    assert(merged[i] == data[i - start_row * width]);
}

/// No worker still holds, past the timeout, a block that is handed out once
/// the timeout check has run over every worker.
pub proof fn lemma_expired_blocks_taken_back(m: CoordinatorView, now: u64)
    requires
        wf(m),
    ensures
        forall|a: u64|
            expired(requeue_upto(m, now, m.next_worker_num as nat), a, now) ==> !requeue_upto(
                m,
                now,
                m.next_worker_num as nat,
            ).assigned.contains_key(
                requeue_upto(m, now, m.next_worker_num as nat).workers[a].current_task_id->0,
            ),
{
    lemma_expired_upto(m, now, m.next_worker_num as nat);
    lemma_requeue_upto(m, now, m.next_worker_num as nat);
}

/// Whether the timeout check takes its block back from worker `b` of `m`:
/// the worker's record names a block that is still handed out, given more
/// than the timeout ago.
pub open spec fn taken_back(m: CoordinatorView, b: u64, now: u64) -> bool {
    &&& expired(m, b, now)
    &&& m.assigned.contains_key(m.workers[b].current_task_id->0)
}

proof fn lemma_requeue_upto_effect(m: CoordinatorView, now: u64, k: nat)
    requires
        wf(m),
        k <= m.next_worker_num,
    ensures
        requeue_upto(m, now, k).workers.dom() == m.workers.dom(),
        forall|t: u32| #[trigger]
            requeue_upto(m, now, k).assigned.contains_key(t) ==> m.assigned.contains_key(t),
        forall|b: u64|
            #[trigger] m.workers.contains_key(b) && !(b <= k && taken_back(m, b, now))
                ==> requeue_upto(m, now, k).workers[b] == m.workers[b],
        forall|b: u64|
            #[trigger] m.workers.contains_key(b) && m.workers[b].current_task_id is Some
                && m.assigned.contains_key(m.workers[b].current_task_id->0) && !(b <= k
                && taken_back(m, b, now)) ==> requeue_upto(m, now, k).assigned.contains_key(
                m.workers[b].current_task_id->0,
            ),
        forall|b: u64|
            #[trigger] m.workers.contains_key(b) && b <= k && taken_back(m, b, now) ==> {
                &&& requeue_upto(m, now, k).workers[b] == idle_view()
                &&& !requeue_upto(m, now, k).assigned.contains_key(m.workers[b].current_task_id->0)
                &&& pending_has(requeue_upto(m, now, k).pending, m.workers[b].current_task_id->0)
            },
    decreases k,
{
    lemma_requeue_keeps_workers(m, now, k);
    if k > 0 {
        let kk = (k - 1) as nat;
        lemma_requeue_upto_effect(m, now, kk);
        lemma_requeue_upto(m, now, kk);
        let p = requeue_upto(m, now, kk);
        let q = requeue_upto(m, now, k);
        let w = k as u64;
        assert(q == requeue_one(p, w, now));
        if m.workers.contains_key(w) {
            assert(p.workers[w] == m.workers[w]);
            if taken_back(m, w, now) {
                let tid = m.workers[w].current_task_id->0;
                assert(p.assigned.contains_key(tid));
                assert(expired(p, w, now));
                assert(q.pending[p.pending.len() as int].id == tid);
                assert forall|b: u64| #[trigger] m.workers.contains_key(b) && b <= kk && taken_back(m, b, now)
                    implies pending_has(q.pending, m.workers[b].current_task_id->0) by {
                    let t = m.workers[b].current_task_id->0;
                    let i = choose|i: int| 0 <= i < p.pending.len() && (#[trigger] p.pending[i]).id == t;
                    assert(q.pending[i] == p.pending[i]);
                }
                assert forall|b: u64|
                    #[trigger] m.workers.contains_key(b) && m.workers[b].current_task_id is Some
                        && m.assigned.contains_key(m.workers[b].current_task_id->0) && !(b <= k
                        && taken_back(m, b, now)) implies q.assigned.contains_key(
                    m.workers[b].current_task_id->0,
                ) by {
                    assert(b != w);
                    assert(m.workers[b].current_task_id != m.workers[w].current_task_id);
                }
            } else {
                if expired(p, w, now) {
                    assert(!p.assigned.contains_key(m.workers[w].current_task_id->0));
                }
                assert(q == p);
            }
        } else {
            assert(q == p);
        }
    }
}

/// The timeout check takes a block back only from the worker holding it,
/// and only once the timeout has passed since it was handed out: a worker
/// whose block is taken back is left with none and the block waits again;
/// every other worker keeps its record, and a still handed-out block it
/// holds stays handed out.
pub proof fn lemma_timeout_takes_back_only_expired(m: CoordinatorView, now: u64, b: u64)
    requires
        wf(m),
        m.workers.contains_key(b),
    ensures
        ({
            let after = requeue_upto(m, now, m.next_worker_num as nat);
            let rec = m.workers[b];
            let t = rec.current_task_id->0;
            let held = rec.current_task_id is Some && m.assigned.contains_key(t);
            &&& after.workers.contains_key(b)
            &&& if held && rec.assigned_at is Some && elapsed(now, rec.assigned_at->0)
                > TASK_TIMEOUT_NANOS {
                &&& after.workers[b] == idle_view()
                &&& !after.assigned.contains_key(t)
                &&& pending_has(after.pending, t)
            } else {
                &&& after.workers[b] == rec
                &&& (held ==> after.assigned.contains_key(t))
            }
        }),
{
    lemma_requeue_upto_effect(m, now, m.next_worker_num as nat);
}

proof fn lemma_expired_upto(m: CoordinatorView, now: u64, k: nat)
    requires
        wf(m),
    ensures
        forall|a: u64|
            1 <= a <= k && expired(requeue_upto(m, now, k), a, now) ==> !requeue_upto(
                m,
                now,
                k,
            ).assigned.contains_key(requeue_upto(m, now, k).workers[a].current_task_id->0),
    decreases k,
{
    if k > 0 {
        lemma_expired_upto(m, now, (k - 1) as nat);
        let p = requeue_upto(m, now, (k - 1) as nat);
        let q = requeue_upto(m, now, k);
        assert forall|a: u64|
            1 <= a <= k && expired(q, a, now) implies !q.assigned.contains_key(
            q.workers[a].current_task_id->0,
        ) by {
            let tid = p.workers[k as u64].current_task_id->0;
            if expired(p, k as u64, now) && p.assigned.contains_key(tid) {
                assert(q.assigned == p.assigned.remove(tid));
                if a < k {
                    assert(q.workers[a] == p.workers[a]);
                    assert(expired(p, a, now));
                } else {
                    assert(q.workers[a] == idle_view());
                }
            } else {
                assert(q == p);
            }
        }
    }
}

/// The picture is to be saved exactly when an answer brings in the last
/// block still to come in.
pub proof fn lemma_save_exactly_when_complete<F: Fn(u64, CoordinatorCommand) -> bool>(
    before: CoordinatorView,
    tid: u32,
    a: u64,
    data: Seq<u32>,
    after: CoordinatorView,
    action: CoordinatorAction,
    now: u64,
    send: F,
)
    requires
        wf(before),
        finish_outcome(before, tid, a, data, after, action, now, send),
    ensures
        action == CoordinatorAction::SaveImage <==> (before.assigned.contains_key(tid)
            && outstanding(after).is_empty()),
{
    if before.assigned.contains_key(tid) {
        let m1 = finish_view(before, tid, a, data);
        lemma_finish(before, tid, a, data);
        if m1.pending.len() == 0 && m1.assigned.is_empty() {
            assert forall|id: u32| !outstanding(after).contains(id) by {
                assert(!m1.assigned.contains_key(id));
            }
            assert(outstanding(after) =~= Set::empty());
        } else {
            let m2 = CoordinatorView { idle: m1.idle.push(a), ..m1 };
            assert(outstanding(m2) =~= outstanding(m1));
            lemma_assign_outcome(m2, after, now, send);
            if m1.pending.len() > 0 {
                assert(outstanding(after).contains(m1.pending[0].id));
            } else {
                let id = m1.assigned.dom().choose();
                assert(m1.assigned.contains_key(id));
                assert(outstanding(after).contains(id));
            }
        }
    }
}

proof fn lemma_requeue_nothing_handed_out(m: CoordinatorView, now: u64, k: nat)
    requires
        m.assigned.is_empty(),
    ensures
        requeue_upto(m, now, k) == m,
    decreases k,
{
    if k > 0 {
        lemma_requeue_nothing_handed_out(m, now, (k - 1) as nat);
    }
}

/// Before the start, with no block handed out, no message hands a block
/// out: a join only adds the worker, a leave only removes it, and an answer
/// changes nothing; the work stays not started.
pub proof fn lemma_messages_hand_out_nothing_before_start<F: Fn(u64, CoordinatorCommand) -> bool>(
    before: CoordinatorView,
    msg: InternalMessage,
    after: CoordinatorView,
    action: CoordinatorAction,
    now: u64,
    send: F,
)
    requires
        wf(before),
        !before.started,
        before.assigned.is_empty(),
        message_outcome(before, msg, after, action, now, send),
    ensures
        !after.started,
        after.assigned.is_empty(),
        msg is WorkerConnected ==> after == connect_view(before, now),
        msg matches InternalMessage::WorkerDisconnected { alias } ==> after == disconnect_view(
            before,
            alias,
        ),
        msg is WorkerFinished ==> after == before && action == CoordinatorAction::Continue,
{
}

/// Before the start, with no block handed out, a tick on which the work does
/// not start changes nothing and hands nothing out.
pub proof fn lemma_ticks_hand_out_nothing_before_start<F: Fn(u64, CoordinatorCommand) -> bool>(
    before: CoordinatorView,
    after: CoordinatorView,
    now: u64,
    send: F,
    auto_started: bool,
)
    requires
        wf(before),
        !before.started,
        before.assigned.is_empty(),
        tick_outcome(before, after, now, send, auto_started),
        !auto_started,
    ensures
        after == before,
{
    lemma_requeue_nothing_handed_out(before, now, before.next_worker_num as nat);
}

/// Every message keeps the invariant and the blocks still to come in, but
/// for an answered handed-out block, which leaves them; the picture keeps
/// its size, and blocks are only handed out once the work started.  No
/// message starts or stops the work, and the time of the last join is the
/// time of the join just handled.
pub proof fn lemma_messages_keep_blocks_and_start<F: Fn(u64, CoordinatorCommand) -> bool>(
    before: CoordinatorView,
    msg: InternalMessage,
    after: CoordinatorView,
    action: CoordinatorAction,
    now: u64,
    send: F,
)
    requires
        wf(before),
        msg is WorkerConnected ==> before.next_worker_num < u64::MAX,
        message_outcome(before, msg, after, action, now, send),
    ensures
        wf(after),
        outstanding(after) == match msg {
            InternalMessage::WorkerFinished { task_id, .. } => if before.assigned.contains_key(
                task_id,
            ) {
                outstanding(before).remove(task_id)
            } else {
                outstanding(before)
            },
            _ => outstanding(before),
        },
        after.blocks == before.blocks,
        after.storage.len() == before.storage.len(),
        after.started == before.started,
        after.last_connection == if msg is WorkerConnected {
            now
        } else {
            before.last_connection
        },
{
    match msg {
        InternalMessage::WorkerConnected => {
            lemma_connect(before, now);
            if before.started {
                lemma_assign_outcome(connect_view(before, now), after, now, send);
            }
        },
        InternalMessage::WorkerDisconnected { alias } => {
            lemma_disconnect(before, alias);
        },
        InternalMessage::WorkerFinished { task_id, alias, data } => {
            if before.assigned.contains_key(task_id) {
                let m1 = finish_view(before, task_id, alias, data@);
                lemma_finish(before, task_id, alias, data@);
                if !(m1.pending.len() == 0 && m1.assigned.is_empty()) {
                    let m2 = CoordinatorView { idle: m1.idle.push(alias), ..m1 };
                    assert(wf(m2));
                    assert(outstanding(m2) =~= outstanding(m1));
                    lemma_assign_outcome(m2, after, now, send);
                }
            }
        },
    }
}

/// The timeout check keeps the invariant, the blocks still to come in, the
/// picture and the start; once the work started it leaves a waiting block
/// or an idle worker at most, and before, it hands nothing out.
pub proof fn lemma_requeue_outcome<F: Fn(u64, CoordinatorCommand) -> bool>(
    before: CoordinatorView,
    after: CoordinatorView,
    now: u64,
    send: F,
)
    requires
        wf(before),
        requeue_outcome(before, after, now, send),
    ensures
        wf(after),
        outstanding(after) == outstanding(before),
        same_frame(before, after),
        after.started == before.started,
        !before.started ==> after.workers.dom() == before.workers.dom(),
        before.started ==> settled(after),
        !before.started ==> after == requeue_upto(before, now, before.next_worker_num as nat),
{
    let mid = requeue_upto(before, now, before.next_worker_num as nat);
    lemma_requeue_upto(before, now, before.next_worker_num as nat);
    lemma_requeue_keeps_workers(before, now, before.next_worker_num as nat);
    if before.started {
        lemma_assign_outcome(mid, after, now, send);
    }
}

proof fn lemma_requeue_keeps_workers(m: CoordinatorView, now: u64, k: nat)
    ensures
        requeue_upto(m, now, k).workers.dom() =~= m.workers.dom(),
    decreases k,
{
    if k > 0 {
        lemma_requeue_keeps_workers(m, now, (k - 1) as nat);
    }
}

/// The start rule over ticks: the work starts on a tick exactly when it had
/// not started and no worker joined for the auto-start delay (counted from
/// the run's start before any join), the delay then counts from that tick,
/// and once started the work stays started.  A tick keeps the invariant, the
/// blocks still to come in and the picture, and once the work started it
/// leaves a waiting block or an idle worker at most.
pub proof fn lemma_ticks_start_when_due<F: Fn(u64, CoordinatorCommand) -> bool>(
    before: CoordinatorView,
    after: CoordinatorView,
    now: u64,
    send: F,
    auto_started: bool,
)
    requires
        wf(before),
        tick_outcome(before, after, now, send, auto_started),
    ensures
        auto_started == start_due(before, now),
        after.started == (before.started || auto_started),
        wf(after),
        outstanding(after) == outstanding(before),
        same_frame(before, after),
        after.started ==> settled(after),
        after.last_connection == if auto_started {
            now
        } else {
            before.last_connection
        },
{
    let mid = requeue_upto(before, now, before.next_worker_num as nat);
    lemma_requeue_upto(before, now, before.next_worker_num as nat);
    if before.started {
        lemma_assign_outcome(mid, after, now, send);
    } else if start_due(before, now) {
        lemma_assign_outcome(
            CoordinatorView { started: true, last_connection: now, ..mid },
            after,
            now,
            send,
        );
    }
}

impl Coordinator {
    /// Number of blocks waiting for a worker.
    pub fn pending_task_count(&self) -> (n: usize)
        ensures
            n == self@.pending.len(),
    {
        self.tasks.len()
    }

    /// Number of workers connected now.
    pub fn connected_workers(&self) -> (n: usize)
        ensures
            n == self@.workers.len(),
    {
        proof {
            assert(self@.workers.dom() =~= self.workers@.dom());
        }
        self.workers.len()
    }

    /// Whether block `task_id` is handed out and not answered yet.
    pub fn is_handed_out(&self, task_id: u32) -> (handed: bool)
        ensures
            handed == self@.assigned.contains_key(task_id),
    {
        self.assigned_tasks.contains_key(&task_id)
    }

    /// Number of workers that ever joined: the number of the last one.
    pub fn workers_joined(&self) -> (n: u64)
        ensures
            n == self@.next_worker_num,
    {
        self.next_worker_num
    }
}

} // verus!
