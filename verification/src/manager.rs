//! The manager: the tasks, the queue, how many run at once, and what users are
//! told.
use std::collections::{BTreeMap, VecDeque};
use vstd::prelude::*;

use crate::error::DownloadError;
use crate::hosts;
use crate::hosts::{host_of, HostCache};
use crate::keys;
use crate::keys::sorted_keys_u64;
use crate::plan::ProbeResult;
use crate::ranged::{RangedRun, RangedView};
use crate::task::{DestPath, DownloadEvent, DownloadOptions, DownloadTask, TaskId, TaskState};

verus! {

broadcast use vstd::std_specs::btree::group_btree_axioms;

/// How far a task has come.
#[derive(Clone, Copy, Debug, PartialEq, Eq, Structural, Default)]
pub struct DownloadProgress {
    /// The bytes downloaded.
    pub downloaded: u64,
    /// The size of the file, or zero where it is not known.
    pub total: u64,
    /// How many segments are being fetched.
    pub active_segments: u32,
}

/// What the manager holds of a task.
#[derive(Clone, Debug, PartialEq, Eq)]
pub struct Entry {
    pub task: DownloadTask,
    pub state: TaskState,
    pub progress: DownloadProgress,
}

/// The queue without the task `id`.
pub open spec fn others(queue: Seq<u64>, id: u64) -> Seq<u64> {
    queue.filter(|x: u64| x != id)
}

/// The workers `running` with one of those on task `id` gone.
pub open spec fn one_less(running: Seq<u64>, id: u64) -> Seq<u64>
    decreases running.len(),
{
    if running.len() == 0 {
        running
    } else if running[0] == id {
        running.drop_first()
    } else {
        seq![running[0]] + one_less(running.drop_first(), id)
    }
}

/// The event that task `id` is now in `state`.
pub open spec fn state_event(id: u64, state: TaskState) -> DownloadEvent {
    DownloadEvent::StateChanged { id, state, detail: None }
}

/// The name of a state in messages.
pub open spec fn state_label(s: TaskState) -> Seq<char> {
    match s {
        TaskState::Queued => "Queued"@,
        TaskState::Downloading => "Downloading"@,
        TaskState::Paused => "Paused"@,
        TaskState::Completed => "Completed"@,
        TaskState::Failed => "Failed"@,
        TaskState::Cancelled => "Cancelled"@,
    }
}

/// The name of a state in messages.
fn label_of(s: TaskState) -> (r: &'static str)
    ensures
        r@ == state_label(s),
{
    match s {
        TaskState::Queued => "Queued",
        TaskState::Downloading => "Downloading",
        TaskState::Paused => "Paused",
        TaskState::Completed => "Completed",
        TaskState::Failed => "Failed",
        TaskState::Cancelled => "Cancelled",
    }
}

/// `r` refuses an operation with this message.
pub open spec fn refuses<T>(r: Result<T, DownloadError>, message: Seq<char>) -> bool {
    r matches Err(DownloadError::Other(m)) && m@ == message
}

/// The manager as plain mathematical values.
#[verifier::ext_equal]
pub struct ManagerView {
    /// The settings that all tasks share.
    pub options: DownloadOptions,
    /// The tasks by id.
    pub tasks: Map<u64, Entry>,
    /// What was put by of the runs that have been stopped, by the id of their task: which
    /// bytes of the partial file have been written.
    pub stopped: Map<u64, RangedView>,
    /// The ids of the waiting tasks, in order.
    pub queue: Seq<u64>,
    /// The workers at work: for each the id of its task.
    pub running: Seq<u64>,
    /// The id for the next task.
    pub next_id: u64,
    /// How many workers may be at work.
    pub capacity: usize,
    /// Whether the manager has been shut down.
    pub closed: bool,
    /// For each host that has been asked, whether it serves ranges.
    pub hosts: Map<Seq<char>, bool>,
    /// The events not yet sent.
    pub events: Seq<DownloadEvent>,
}

impl ManagerView {
    /// Every task stands under its id, ids are given in order, no more workers are at work
    /// than may be, and what was put by is in order and belongs to a task.
    pub open spec fn wf(self) -> bool {
        &&& self.capacity >= 1
        &&& self.running.len() <= self.capacity
        &&& self.tasks.dom().finite()
        &&& forall|id: u64| #[trigger]
            self.tasks.contains_key(id) ==> self.tasks[id].task.id == id && id < self.next_id
        &&& forall|id: u64| #[trigger]
            self.stopped.contains_key(id) ==> self.tasks.contains_key(id) && self.stopped[id].wf()
    }

    /// Task `id` exists and is in `state`.
    pub open spec fn is_in(self, id: u64, state: TaskState) -> bool {
        self.tasks.contains_key(id) && self.tasks[id].state == state
    }

    /// With task `id` in `state`.
    pub open spec fn moved(self, id: u64, state: TaskState) -> ManagerView {
        ManagerView {
            tasks: self.tasks.insert(id, Entry { state, ..self.tasks[id] }),
            ..self
        }
    }

    /// With task `id` at the end of the queue.
    pub open spec fn queued(self, id: u64) -> ManagerView {
        ManagerView { queue: self.queue.push(id), ..self }
    }

    /// With task `id` out of the queue.
    pub open spec fn unqueued(self, id: u64) -> ManagerView {
        ManagerView { queue: others(self.queue, id), ..self }
    }

    /// With one more event to send.
    pub open spec fn told(self, event: DownloadEvent) -> ManagerView {
        ManagerView { events: self.events.push(event), ..self }
    }

    /// With `task` added.
    pub open spec fn added(self, task: DownloadTask) -> ManagerView {
        let id = self.next_id;
        ManagerView {
            tasks: self.tasks.insert(
                id,
                Entry {
                    task: DownloadTask { id, ..task },
                    state: TaskState::Queued,
                    progress: DownloadProgress { downloaded: 0, total: 0, active_segments: 0 },
                },
            ),
            queue: self.queue.push(id),
            next_id: (id + 1) as u64,
            events: self.events.push(state_event(id, TaskState::Queued)),
            ..self
        }
    }

    /// With task `id` paused.
    pub open spec fn paused(self, id: u64) -> ManagerView {
        if self.tasks[id].state == TaskState::Queued {
            self.unqueued(id).moved(id, TaskState::Paused)
        } else {
            self.moved(id, TaskState::Paused)
        }
    }

    /// With task `id` waiting again, and users told.
    pub open spec fn requeued(self, id: u64) -> ManagerView {
        self.moved(id, TaskState::Queued).queued(id).told(state_event(id, TaskState::Queued))
    }

    /// With the state of a run of task `id` put by.
    pub open spec fn put_by(self, id: u64, run: RangedView) -> ManagerView {
        ManagerView { stopped: self.stopped.insert(id, run.put_by()), ..self }
    }

    /// With nothing put by for task `id`.
    pub open spec fn taken_up(self, id: u64) -> ManagerView {
        ManagerView { stopped: self.stopped.remove(id), ..self }
    }

    /// With task `id` cancelled, and nothing put by for it.
    pub open spec fn cancelled(self, id: u64) -> ManagerView {
        self.unqueued(id).moved(id, TaskState::Cancelled).taken_up(id)
    }

    /// Without task `id`.
    pub open spec fn forgotten(self, id: u64) -> ManagerView {
        ManagerView { tasks: self.tasks.remove(id), ..self }
    }

    /// With a worker begun for task `id`, the first in the queue.
    pub open spec fn begun(self, id: u64) -> ManagerView {
        ManagerView {
            tasks: self.tasks.insert(
                id,
                Entry { state: TaskState::Downloading, ..self.tasks[id] },
            ),
            queue: self.queue.drop_first(),
            running: self.running.push(id),
            events: self.events.push(state_event(id, TaskState::Downloading)),
            ..self
        }
    }

    /// With workers begun for the waiting tasks, in order, as long as there are
    /// workers to be had. Ids of tasks that are gone are dropped.
    pub open spec fn dispatched(self) -> ManagerView
        decreases self.queue.len(),
    {
        if self.closed || self.queue.len() == 0 {
            self
        } else if !self.tasks.contains_key(self.queue[0]) {
            ManagerView { queue: self.queue.drop_first(), ..self }.dispatched()
        } else if self.running.len() >= self.capacity {
            self
        } else {
            self.begun(self.queue[0]).dispatched()
        }
    }

    /// The state of task `id` after its worker ended with `result`.
    pub open spec fn state_after(self, id: u64, result: Result<(), DownloadError>) -> TaskState {
        match result {
            Ok(_) => TaskState::Completed,
            Err(DownloadError::Cancelled) => if self.tasks.contains_key(id) {
                self.tasks[id].state
            } else {
                TaskState::Cancelled
            },
            Err(_) => TaskState::Failed,
        }
    }

    /// After a worker of task `id`, whose URL is at `host`, ended with `result`,
    /// but for the event about it.
    pub open spec fn finished(
        self,
        id: u64,
        host: Seq<char>,
        result: Result<(), DownloadError>,
    ) -> ManagerView {
        ManagerView {
            tasks: if self.tasks.contains_key(id) {
                self.tasks.insert(
                    id,
                    Entry { state: self.state_after(id, result), ..self.tasks[id] },
                )
            } else {
                self.tasks
            },
            running: one_less(self.running, id),
            hosts: if result is Err {
                self.hosts.remove(host)
            } else {
                self.hosts
            },
            ..self
        }
    }

    /// With the progress of task `id` replaced.
    pub open spec fn progressed(self, id: u64, progress: DownloadProgress) -> ManagerView {
        ManagerView {
            tasks: self.tasks.insert(id, Entry { progress, ..self.tasks[id] }),
            ..self
        }
    }
}

/// The sum of `f` over the tasks with an id below `below`.
pub open spec fn sum_below(m: Map<u64, Entry>, f: spec_fn(Entry) -> nat, below: nat) -> nat
    decreases below,
{
    if below == 0 {
        0
    } else {
        let id = (below - 1) as u64;
        sum_below(m, f, (below - 1) as nat) + (if m.contains_key(id) {
            f(m[id])
        } else {
            0
        })
    }
}

/// The bytes downloaded of a task.
pub open spec fn downloaded_of() -> spec_fn(Entry) -> nat {
    |e: Entry| e.progress.downloaded as nat
}

/// The size of the file of a task.
pub open spec fn total_of() -> spec_fn(Entry) -> nat {
    |e: Entry| e.progress.total as nat
}

/// One for a task that is being downloaded.
pub open spec fn active_of() -> spec_fn(Entry) -> nat {
    |e: Entry|
        if e.state == TaskState::Downloading {
            1
        } else {
            0
        }
}

/// Ids without a task add nothing.
proof fn lemma_sum_gap(m: Map<u64, Entry>, f: spec_fn(Entry) -> nat, from: nat, to: nat)
    requires
        from <= to <= u64::MAX + 1,
        forall|id: u64| from <= id < to ==> !#[trigger] m.contains_key(id),
    ensures
        sum_below(m, f, from) == sum_below(m, f, to),
    decreases to - from,
{
    if from < to {
        lemma_sum_gap(m, f, from, (to - 1) as nat);
        let id = (to - 1) as u64;
        assert(!m.contains_key(id));
    }
}

/// More ids never make a sum smaller.
proof fn lemma_sum_grows(m: Map<u64, Entry>, f: spec_fn(Entry) -> nat, from: nat, to: nat)
    requires
        from <= to,
    ensures
        sum_below(m, f, from) <= sum_below(m, f, to),
    decreases to - from,
{
    if from < to {
        lemma_sum_grows(m, f, from, (to - 1) as nat);
    }
}

/// The manager's tables.
pub struct DownloadManager {
    options: DownloadOptions,
    tasks: BTreeMap<u64, Entry>,
    stopped: BTreeMap<u64, RangedRun>,
    queue: VecDeque<u64>,
    running: Vec<u64>,
    next_id: u64,
    capacity: usize,
    closed: bool,
    host_probe: HostCache,
    events: Vec<DownloadEvent>,
}

impl View for DownloadManager {
    type V = ManagerView;

    closed spec fn view(&self) -> ManagerView {
        ManagerView {
            options: self.options,
            tasks: self.tasks@,
            stopped: self.stopped@.map_values(|r: RangedRun| r@),
            queue: self.queue@,
            running: self.running@,
            next_id: self.next_id,
            capacity: self.capacity,
            closed: self.closed,
            hosts: self.host_probe.facts(),
            events: self.events@,
        }
    }
}

/// The queue without the task `id`.
fn without(queue: &VecDeque<u64>, id: u64) -> (r: VecDeque<u64>)
    ensures
        r@ == others(queue@, id),
{
    let mut r: VecDeque<u64> = VecDeque::new();
    let n: usize = queue.len();
    let mut i: usize = 0;
    assert(others(queue@.take(0), id) =~= Seq::<u64>::empty()) by {
        reveal(Seq::filter);
    }
    while i < n
        invariant
            n == queue@.len(),
            0 <= i <= n,
            r@ == others(queue@.take(i as int), id),
        decreases n - i,
    {
        let x: u64 = queue[i];
        proof {
            reveal(Seq::filter);
            assert(queue@.take(i + 1).drop_last() =~= queue@.take(i as int));
            assert(queue@.take(i + 1).last() == x);
        }
        if x != id {
            r.push_back(x);
        }
        i = i + 1;
    }
    assert(queue@.take(n as int) =~= queue@);
    r
}

/// Taking out the first worker on task `id`.
proof fn lemma_one_less(running: Seq<u64>, id: u64, i: int)
    requires
        0 <= i < running.len(),
        running[i] == id,
        forall|j: int| 0 <= j < i ==> running[j] != id,
    ensures
        one_less(running, id) == running.remove(i),
    decreases running.len(),
{
    if i > 0 {
        let rest = running.drop_first();
        lemma_one_less(rest, id, i - 1);
        assert(one_less(running, id) =~= running.remove(i));
    } else {
        assert(running.drop_first() =~= running.remove(0));
    }
}

/// Where no worker is on task `id` none is taken out.
proof fn lemma_none_less(running: Seq<u64>, id: u64)
    requires
        forall|j: int| 0 <= j < running.len() ==> running[j] != id,
    ensures
        one_less(running, id) == running,
    decreases running.len(),
{
    if running.len() > 0 {
        lemma_none_less(running.drop_first(), id);
        assert(one_less(running, id) =~= running);
    }
}

impl DownloadManager {
    /// The tables are in order.
    pub open spec fn wf(self) -> bool {
        self@.wf() && self.hosts_wf()
    }

    /// No host is listed twice.
    pub closed spec fn hosts_wf(self) -> bool {
        self.host_probe.wf()
    }

    /// A manager without tasks, with up to `max_concurrent` workers, but at least
    /// one.
    pub fn new(options: DownloadOptions, max_concurrent: usize) -> (m: Self)
        ensures
            m.wf(),
            m@.orderly(),
            m@ == (ManagerView {
                options,
                tasks: Map::empty(),
                stopped: Map::empty(),
                queue: Seq::empty(),
                running: Seq::empty(),
                next_id: 1,
                capacity: if max_concurrent < 1 {
                    1
                } else {
                    max_concurrent
                },
                closed: false,
                hosts: Map::empty(),
                events: Seq::empty(),
            }),
    {
        let capacity: usize = if max_concurrent < 1 {
            1
        } else {
            max_concurrent
        };
        let m = DownloadManager {
            options,
            tasks: BTreeMap::new(),
            stopped: BTreeMap::new(),
            queue: VecDeque::new(),
            running: Vec::new(),
            next_id: 1,
            capacity,
            closed: false,
            host_probe: HostCache::new(),
            events: Vec::new(),
        };
        assert(m@.stopped =~= Map::<u64, RangedView>::empty());
        m
    }

    /// Adds a task at the end of the queue and returns its id.
    pub fn add(&mut self, task: DownloadTask) -> (id: TaskId)
        requires
            old(self).wf(),
            old(self)@.next_id < u64::MAX,
        ensures
            final(self).wf(),
            id == old(self)@.next_id,
            !old(self)@.tasks.contains_key(id),
            final(self)@ == old(self)@.added(task),
    {
        let id: u64 = self.next_id;
        self.next_id = id + 1;
        let mut task = task;
        task.id = id;
        let progress = DownloadProgress { downloaded: 0, total: 0, active_segments: 0 };
        self.tasks.insert(id, Entry { task, state: TaskState::Queued, progress });
        self.events.push(
            DownloadEvent::StateChanged { id, state: TaskState::Queued, detail: None },
        );
        self.queue.push_back(id);
        assert(self@ =~= old(self)@.added(task));
        id
    }

    /// Puts task `id` into `state`.
    fn set_state(&mut self, id: u64, state: TaskState)
        requires
            old(self).wf(),
            old(self)@.tasks.contains_key(id),
        ensures
            final(self).wf(),
            final(self)@ == old(self)@.moved(id, state),
    {
        match self.tasks.remove(&id) {
            Some(entry) => {
                let mut entry = entry;
                entry.state = state;
                self.tasks.insert(id, entry);
            },
            None => {},
        }
        assert(self@ =~= old(self)@.moved(id, state));
    }

    /// The state of task `id`.
    pub fn state(&self, id: TaskId) -> (r: Result<TaskState, DownloadError>)
        requires
            self.wf(),
        ensures
            self@.tasks.contains_key(id) ==> r == Ok::<TaskState, DownloadError>(
                self@.tasks[id].state,
            ),
            !self@.tasks.contains_key(id) ==> r == Err::<TaskState, DownloadError>(
                DownloadError::TaskNotFound(id),
            ),
    {
        match self.tasks.get(&id) {
            Some(entry) => Ok(entry.state),
            None => Err(DownloadError::TaskNotFound(id)),
        }
    }

    /// How far task `id` has come.
    pub fn progress(&self, id: TaskId) -> (r: Result<DownloadProgress, DownloadError>)
        requires
            self.wf(),
        ensures
            self@.tasks.contains_key(id) ==> r == Ok::<DownloadProgress, DownloadError>(
                self@.tasks[id].progress,
            ),
            !self@.tasks.contains_key(id) ==> r == Err::<DownloadProgress, DownloadError>(
                DownloadError::TaskNotFound(id),
            ),
    {
        match self.tasks.get(&id) {
            Some(entry) => Ok(entry.progress),
            None => Err(DownloadError::TaskNotFound(id)),
        }
    }

    /// Pauses a task. A waiting task leaves the queue; of any other the worker has
    /// to be stopped, which the result tells. What is downloaded is kept: the partial
    /// file stays as it is, and what the worker puts by when it stops is there for the next.
    pub fn pause(&mut self, id: TaskId) -> (r: Result<bool, DownloadError>)
        requires
            old(self).wf(),
        ensures
            final(self).wf(),
            if !old(self)@.tasks.contains_key(id) {
                r == Err::<bool, DownloadError>(DownloadError::TaskNotFound(id)) && final(self)@
                    == old(self)@
            } else {
                match old(self)@.tasks[id].state {
                    TaskState::Completed | TaskState::Cancelled => {
                        &&& refuses(
                            r,
                            "任务已终结（"@ + state_label(old(self)@.tasks[id].state)
                                + "），无法暂停"@,
                        )
                        &&& final(self)@ == old(self)@
                    },
                    s => {
                        &&& r == Ok::<bool, DownloadError>(s != TaskState::Queued)
                        &&& final(self)@ == old(self)@.paused(id)
                    },
                }
            },
    {
        let cur: TaskState = self.state(id)?;
        match cur {
            TaskState::Completed | TaskState::Cancelled => {
                return Err(
                    DownloadError::Other(
                        "任务已终结（".to_owned().concat(label_of(cur)).concat("），无法暂停"),
                    ),
                );
            },
            TaskState::Queued => {
                self.queue = without(&self.queue, id);
                self.set_state(id, TaskState::Paused);
                Ok(false)
            },
            _ => {
                self.set_state(id, TaskState::Paused);
                Ok(true)
            },
        }
    }

    /// Puts a paused task back into the queue; it gets a fresh worker later.
    pub fn resume(&mut self, id: TaskId) -> (r: Result<(), DownloadError>)
        requires
            old(self).wf(),
        ensures
            final(self).wf(),
            if !old(self)@.tasks.contains_key(id) {
                r == Err::<(), DownloadError>(DownloadError::TaskNotFound(id)) && final(self)@
                    == old(self)@
            } else if old(self)@.tasks[id].state != TaskState::Paused {
                &&& refuses(
                    r,
                    "任务状态为 "@ + state_label(old(self)@.tasks[id].state) + "，不可恢复"@,
                )
                &&& final(self)@ == old(self)@
            } else {
                r is Ok && final(self)@ == old(self)@.requeued(id)
            },
    {
        let cur: TaskState = self.state(id)?;
        if cur != TaskState::Paused {
            return Err(
                DownloadError::Other(
                    "任务状态为 ".to_owned().concat(label_of(cur)).concat("，不可恢复"),
                ),
            );
        }
        self.set_state(id, TaskState::Queued);
        self.queue.push_back(id);
        self.announce(id, TaskState::Queued);
        Ok(())
    }

    /// Puts a failed or cancelled task back into the queue.
    pub fn retry(&mut self, id: TaskId) -> (r: Result<(), DownloadError>)
        requires
            old(self).wf(),
        ensures
            final(self).wf(),
            if !old(self)@.tasks.contains_key(id) {
                r == Err::<(), DownloadError>(DownloadError::TaskNotFound(id)) && final(self)@
                    == old(self)@
            } else {
                match old(self)@.tasks[id].state {
                    TaskState::Failed | TaskState::Cancelled => r is Ok && final(self)@ == old(
                        self,
                    )@.requeued(id),
                    TaskState::Downloading | TaskState::Queued => refuses(
                        r,
                        "任务进行中，无法重试"@,
                    ) && final(self)@ == old(self)@,
                    TaskState::Completed => refuses(r, "任务已完成，无需重试"@) && final(self)@
                        == old(self)@,
                    TaskState::Paused => refuses(r, "任务已暂停，请用 resume"@) && final(self)@
                        == old(self)@,
                }
            },
    {
        let cur: TaskState = self.state(id)?;
        match cur {
            TaskState::Failed | TaskState::Cancelled => {},
            TaskState::Downloading | TaskState::Queued => {
                return Err(DownloadError::Other("任务进行中，无法重试".to_owned()));
            },
            TaskState::Completed => {
                return Err(DownloadError::Other("任务已完成，无需重试".to_owned()));
            },
            TaskState::Paused => {
                return Err(DownloadError::Other("任务已暂停，请用 resume".to_owned()));
            },
        }
        self.set_state(id, TaskState::Queued);
        self.queue.push_back(id);
        self.announce(id, TaskState::Queued);
        Ok(())
    }

    /// Cancels a task, whatever its state. Its worker has to be stopped, and then
    /// the partial file deleted whose path is returned.
    pub fn cancel(&mut self, id: TaskId) -> (r: Result<DestPath, DownloadError>)
        requires
            old(self).wf(),
        ensures
            final(self).wf(),
            if !old(self)@.tasks.contains_key(id) {
                r == Err::<DestPath, DownloadError>(DownloadError::TaskNotFound(id)) && final(self)@ == old(self)@
            } else {
                &&& r is Ok
                &&& r->Ok_0.dir == old(self)@.tasks[id].task.dest.dir
                &&& r->Ok_0.file_name is Some
                &&& r->Ok_0.file_name->0@ == old(self)@.tasks[id].task.dest.part_name()
                &&& final(self)@ == old(self)@.cancelled(id)
            },
    {
        let part: DestPath = match self.tasks.get(&id) {
            Some(entry) => entry.task.part_path(),
            None => {
                return Err(DownloadError::TaskNotFound(id));
            },
        };
        self.queue = without(&self.queue, id);
        self.set_state(id, TaskState::Cancelled);
        let _ = self.take_up(id);
        Ok(part)
    }

    /// Cancels a task and forgets it.
    pub fn remove(&mut self, id: TaskId) -> (r: Result<DestPath, DownloadError>)
        requires
            old(self).wf(),
        ensures
            final(self).wf(),
            if !old(self)@.tasks.contains_key(id) {
                r == Err::<DestPath, DownloadError>(DownloadError::TaskNotFound(id)) && final(self)@ == old(self)@
            } else {
                &&& r is Ok
                &&& r->Ok_0.dir == old(self)@.tasks[id].task.dest.dir
                &&& r->Ok_0.file_name is Some
                &&& r->Ok_0.file_name->0@ == old(self)@.tasks[id].task.dest.part_name()
                &&& final(self)@ == old(self)@.cancelled(id).forgotten(id)
            },
    {
        let part: DestPath = self.cancel(id)?;
        self.tasks.remove(&id);
        Ok(part)
    }

    /// Lists the tasks with their states, by id.
    pub fn list(&self) -> (r: Vec<(TaskId, TaskState)>)
        requires
            self.wf(),
        ensures
            r@.len() == self@.tasks.dom().len(),
            forall|i: int|
                0 <= i < r@.len() ==> self@.is_in((#[trigger] r@[i]).0, r@[i].1),
            forall|i: int, j: int|
                0 <= i < j < r@.len() ==> (#[trigger] r@[i]).0 < (#[trigger] r@[j]).0,
            forall|id: u64| #[trigger]
                self@.tasks.contains_key(id) ==> exists|i: int|
                    0 <= i < r@.len() && (#[trigger] r@[i]).0 == id,
    {
        let ids: Vec<u64> = sorted_keys_u64(&self.tasks);
        let n: usize = ids.len();
        let mut r: Vec<(TaskId, TaskState)> = Vec::new();
        let mut i: usize = 0;
        while i < n
            invariant
                n == ids@.len(),
                0 <= i <= n,
                keys::lists_keys_u64(ids@, self.tasks@),
                r@.len() == i,
                forall|j: int|
                    0 <= j < i ==> (#[trigger] r@[j]).0 == ids@[j] && self@.is_in(
                        r@[j].0,
                        r@[j].1,
                    ),
            decreases n - i,
        {
            let id: u64 = ids[i];
            assert(ids@.to_set().contains(id)) by {
                assert(ids@.contains(ids@[i as int]));
            }
            match self.tasks.get(&id) {
                Some(entry) => {
                    r.push((id, entry.state));
                },
                None => {},
            }
            i = i + 1;
        }
        assert forall|id: u64| #[trigger] self@.tasks.contains_key(id) implies exists|i: int|
            0 <= i < r@.len() && (#[trigger] r@[i]).0 == id by {
            assert(ids@.to_set().contains(id));
            let k = choose|k: int| 0 <= k < ids@.len() && ids@[k] == id;
            assert(r@[k].0 == id);
        }
        r
    }

    /// Tells users that task `id` is now in `state`.
    pub fn announce(&mut self, id: TaskId, state: TaskState)
        requires
            old(self).wf(),
        ensures
            final(self).wf(),
            final(self)@ == old(self)@.told(state_event(id, state)),
    {
        self.events.push(DownloadEvent::StateChanged { id, state, detail: None });
        assert(self@ =~= old(self)@.told(state_event(id, state)));
    }

    /// Takes the events not yet sent.
    pub fn take_events(&mut self) -> (r: Vec<DownloadEvent>)
        requires
            old(self).wf(),
        ensures
            final(self).wf(),
            r@ == old(self)@.events,
            final(self)@ == (ManagerView { events: Seq::empty(), ..old(self)@ }),
    {
        let mut r: Vec<DownloadEvent> = Vec::new();
        std::mem::swap(&mut r, &mut self.events);
        assert(self@ =~= (ManagerView { events: Seq::empty(), ..old(self)@ }));
        r
    }

    /// Begins workers for waiting tasks, as many as may be, and returns the ids of
    /// their tasks.
    pub fn dispatch(&mut self) -> (started: Vec<TaskId>)
        requires
            old(self).wf(),
        ensures
            final(self).wf(),
            final(self)@ == old(self)@.dispatched(),
            final(self)@.running == old(self)@.running + started@,
    {
        let mut started: Vec<TaskId> = Vec::new();
        if self.closed {
            assert(self@.running =~= old(self)@.running + started@);
            return started;
        }
        let ghost before = self@.running;
        assert(before =~= before + started@);
        while self.queue.len() > 0
            invariant
                self.wf(),
                !self.closed,
                self@.dispatched() == old(self)@.dispatched(),
                self@.running == before + started@,
                before == old(self)@.running,
            ensures
                self.wf(),
                self@ == old(self)@.dispatched(),
                self@.running == before + started@,
            decreases self.queue@.len(),
        {
            let ghost v = self@;
            let id: u64 = match self.queue.pop_front() {
                Some(id) => id,
                None => {
                    break;
                },
            };
            assert(v.queue[0] == id);
            assert(self.queue@ =~= v.queue.drop_first());
            if !self.tasks.contains_key(&id) {
                assert(self@ =~= (ManagerView { queue: v.queue.drop_first(), ..v }));
                continue;
            }
            if self.running.len() >= self.capacity {
                self.queue.push_front(id);
                assert(self.queue@ =~= v.queue);
                assert(self@ =~= v);
                break;
            }
            self.set_state(id, TaskState::Downloading);
            self.running.push(id);
            self.events.push(
                DownloadEvent::StateChanged { id, state: TaskState::Downloading, detail: None },
            );
            started.push(id);
            assert(self@ =~= v.begun(id));
            assert(self@.running =~= before + started@);
        }
        started
    }

    /// Takes in that the worker of `task` ended with `result`: its place is free
    /// again, the task's state changes unless the worker was merely stopped, and
    /// users are told. After an error the host is asked again next time.
    pub fn finish(&mut self, task: &DownloadTask, result: Result<(), DownloadError>)
        requires
            old(self).wf(),
        ensures
            final(self).wf(),
            final(self)@ == (ManagerView {
                events: final(self)@.events,
                ..old(self)@.finished(
                    task.id,
                    hosts::host_key(task.url@, hosts::parsed_url(task.url@)),
                    result,
                )
            }),
            final(self)@.events.len() == old(self)@.events.len() + 1,
            final(self)@.events.drop_last() == old(self)@.events,
            final(self)@.events.last() matches DownloadEvent::StateChanged { id, state, detail }
                && id == task.id && state == old(self)@.state_after(task.id, result) && (
            match result {
                Ok(_) => detail is None,
                Err(DownloadError::Cancelled) => detail is None,
                Err(e) => detail is Some && detail->0@ == e.text(),
            }),
    {
        let id: u64 = task.id;
        match &result {
            Ok(_) => {},
            Err(_) => {
                let host: String = host_of(task.url.as_str());
                self.host_probe.remove(&host);
            },
        }
        let cur: TaskState = match self.tasks.get(&id) {
            Some(entry) => entry.state,
            None => TaskState::Cancelled,
        };
        let (state, detail): (TaskState, Option<String>) = match &result {
            Ok(_) => (TaskState::Completed, None),
            Err(DownloadError::Cancelled) => (cur, None),
            Err(e) => (TaskState::Failed, Some(e.message())),
        };
        if self.tasks.contains_key(&id) {
            self.set_state(id, state);
        }
        self.events.push(DownloadEvent::StateChanged { id, state, detail });
        self.release(id);
        assert(self@.events.drop_last() =~= old(self)@.events);
    }

    /// Frees the place of one worker of task `id`.
    fn release(&mut self, id: u64)
        requires
            old(self).wf(),
        ensures
            final(self).wf(),
            final(self)@ == (ManagerView {
                running: one_less(old(self)@.running, id),
                ..old(self)@
            }),
    {
        let n: usize = self.running.len();
        let mut i: usize = 0;
        while i < n
            invariant
                *self == *old(self),
                self.wf(),
                n == self.running@.len(),
                0 <= i <= n,
                forall|j: int| 0 <= j < i ==> self.running@[j] != id,
            decreases n - i,
        {
            if self.running[i] == id {
                proof {
                    lemma_one_less(self.running@, id, i as int);
                }
                let _ = self.running.remove(i);
                return;
            }
            i = i + 1;
        }
        proof {
            lemma_none_less(self.running@, id);
        }
    }

    /// Shuts the manager down: nothing is begun any more. Returns the ids of all
    /// tasks; their workers have to be stopped.
    pub fn shutdown(&mut self) -> (ids: Vec<TaskId>)
        requires
            old(self).wf(),
        ensures
            final(self).wf(),
            final(self)@ == (ManagerView { closed: true, ..old(self)@ }),
            keys::lists_keys_u64(ids@, old(self)@.tasks),
    {
        self.closed = true;
        assert(self@ =~= (ManagerView { closed: true, ..old(self)@ }));
        sorted_keys_u64(&self.tasks)
    }

    /// Takes in the state of a run of task `id` that has been stopped, so that the next run
    /// can go on from there. Of a cancelled task nothing is kept.
    pub fn put_by(&mut self, id: TaskId, run: RangedRun)
        requires
            old(self).wf(),
            run@.wf(),
        ensures
            final(self).wf(),
            final(self)@ == (if old(self)@.tasks.contains_key(id) && old(self)@.tasks[id].state
                != TaskState::Cancelled {
                old(self)@.put_by(id, run@)
            } else {
                old(self)@
            }),
    {
        match self.state(id) {
            Ok(s) => {
                if s != TaskState::Cancelled {
                    let mut run = run;
                    run.put_by();
                    let ghost kept = run@;
                    self.stopped.insert(id, run);
                    assert(self@ =~= (ManagerView {
                        stopped: old(self)@.stopped.insert(id, kept),
                        ..old(self)@
                    }));
                }
            },
            Err(_) => {},
        }
    }

    /// Takes what was put by for task `id`. The run that goes on from there changes the
    /// partial file, so that nothing is put by until it stops.
    pub fn take_up(&mut self, id: TaskId) -> (r: Option<RangedRun>)
        requires
            old(self).wf(),
        ensures
            final(self).wf(),
            final(self)@ == old(self)@.taken_up(id),
            match r {
                Some(run) => {
                    &&& old(self)@.stopped.contains_key(id)
                    &&& run@ == old(self)@.stopped[id]
                    &&& run@.wf()
                },
                None => !old(self)@.stopped.contains_key(id),
            },
    {
        let r: Option<RangedRun> = self.stopped.remove(&id);
        proof {
            assert(self@ =~= old(self)@.taken_up(id));
            if old(self).stopped@.contains_key(id) {
                assert(old(self)@.stopped.contains_key(id));
            }
        }
        r
    }

    /// Whether the host of `url` serves ranges, where that is known.
    pub fn host_known(&self, url: &str) -> (r: Option<bool>)
        requires
            self.wf(),
        ensures
            ({
                let host = hosts::host_key(url@, hosts::parsed_url(url@));
                r == (if self@.hosts.contains_key(host) {
                    Some(self@.hosts[host])
                } else {
                    None
                })
            }),
    {
        self.host_probe.get(&host_of(url))
    }

    /// Keeps in mind what the host of `url` said.
    pub fn remember_host(&mut self, url: &str, probe: &ProbeResult)
        requires
            old(self).wf(),
        ensures
            final(self).wf(),
            final(self)@ == (ManagerView {
                hosts: old(self)@.hosts.insert(
                    hosts::host_key(url@, hosts::parsed_url(url@)),
                    probe.range_ok,
                ),
                ..old(self)@
            }),
    {
        self.host_probe.insert(host_of(url), probe.range_ok);
        assert(self@ =~= (ManagerView { hosts: self@.hosts, ..old(self)@ }));
    }

    /// Whether there is an id left for another task.
    pub fn has_ids_left(&self) -> (b: bool)
        ensures
            b == (self@.next_id < u64::MAX),
    {
        self.next_id < u64::MAX
    }

    /// Replaces the progress of task `id`.
    fn set_progress(&mut self, id: u64, progress: DownloadProgress)
        requires
            old(self).wf(),
            old(self)@.tasks.contains_key(id),
        ensures
            final(self).wf(),
            final(self)@ == old(self)@.progressed(id, progress),
    {
        match self.tasks.remove(&id) {
            Some(entry) => {
                let mut entry = entry;
                entry.progress = progress;
                self.tasks.insert(id, entry);
            },
            None => {},
        }
        assert(self@ =~= old(self)@.progressed(id, progress));
    }

    /// Counts `n` more bytes for task `id`.
    pub fn count_bytes(&mut self, id: TaskId, n: u64)
        requires
            old(self).wf(),
        ensures
            final(self).wf(),
            final(self)@ == (if old(self)@.tasks.contains_key(id) {
                old(self)@.progressed(
                    id,
                    DownloadProgress {
                        downloaded: old(self)@.tasks[id].progress.downloaded.wrapping_add(n),
                        ..old(self)@.tasks[id].progress
                    },
                )
            } else {
                old(self)@
            }),
    {
        match self.progress(id) {
            Ok(p) => {
                let mut p = p;
                p.downloaded = p.downloaded.wrapping_add(n);
                self.set_progress(id, p);
            },
            Err(_) => {},
        }
    }

    /// Takes `n` bytes of task `id` back, which are to be fetched again.
    pub fn take_back_bytes(&mut self, id: TaskId, n: u64)
        requires
            old(self).wf(),
        ensures
            final(self).wf(),
            final(self)@ == (if old(self)@.tasks.contains_key(id) {
                old(self)@.progressed(
                    id,
                    DownloadProgress {
                        downloaded: old(self)@.tasks[id].progress.downloaded.wrapping_sub(n),
                        ..old(self)@.tasks[id].progress
                    },
                )
            } else {
                old(self)@
            }),
    {
        match self.progress(id) {
            Ok(p) => {
                let mut p = p;
                p.downloaded = p.downloaded.wrapping_sub(n);
                self.set_progress(id, p);
            },
            Err(_) => {},
        }
    }

    /// Notes that `n` bytes of the file of task `id` are there, when a run or an attempt
    /// begins with them.
    pub fn set_downloaded(&mut self, id: TaskId, n: u64)
        requires
            old(self).wf(),
        ensures
            final(self).wf(),
            final(self)@ == (if old(self)@.tasks.contains_key(id) {
                old(self)@.progressed(
                    id,
                    DownloadProgress { downloaded: n, ..old(self)@.tasks[id].progress },
                )
            } else {
                old(self)@
            }),
    {
        match self.progress(id) {
            Ok(p) => {
                let mut p = p;
                p.downloaded = n;
                self.set_progress(id, p);
            },
            Err(_) => {},
        }
    }

    /// Notes how many segments of task `id` are being fetched, as `run` has it.
    pub fn report_segments(&mut self, id: TaskId, run: &RangedRun)
        requires
            old(self).wf(),
            run@.wf(),
        ensures
            final(self).wf(),
            final(self)@ == (if old(self)@.tasks.contains_key(id) {
                old(self)@.progressed(
                    id,
                    DownloadProgress {
                        active_segments: run@.active.len() as u32,
                        ..old(self)@.tasks[id].progress
                    },
                )
            } else {
                old(self)@
            }),
            old(self)@.tasks.contains_key(id)
                ==> final(self)@.tasks[id].progress.active_segments == run@.active.len(),
    {
        self.set_active_segments(id, run.active_count());
    }

    /// Notes the size of the file of task `id`.
    pub fn set_total(&mut self, id: TaskId, total: u64)
        requires
            old(self).wf(),
        ensures
            final(self).wf(),
            final(self)@ == (if old(self)@.tasks.contains_key(id) {
                old(self)@.progressed(
                    id,
                    DownloadProgress { total, ..old(self)@.tasks[id].progress },
                )
            } else {
                old(self)@
            }),
    {
        match self.progress(id) {
            Ok(p) => {
                let mut p = p;
                p.total = total;
                self.set_progress(id, p);
            },
            Err(_) => {},
        }
    }

    /// Notes how many segments of task `id` are being fetched.
    pub fn set_active_segments(&mut self, id: TaskId, n: u32)
        requires
            old(self).wf(),
        ensures
            final(self).wf(),
            final(self)@ == (if old(self)@.tasks.contains_key(id) {
                old(self)@.progressed(
                    id,
                    DownloadProgress { active_segments: n, ..old(self)@.tasks[id].progress },
                )
            } else {
                old(self)@
            }),
    {
        match self.progress(id) {
            Ok(p) => {
                let mut p = p;
                p.active_segments = n;
                self.set_progress(id, p);
            },
            Err(_) => {},
        }
    }

    /// How far all tasks together have come, as an event; nothing where one of the
    /// sums is too large for it.
    pub fn global_progress(&self) -> (r: Option<DownloadEvent>)
        requires
            self.wf(),
        ensures
            ({
                let m = self@.tasks;
                let end = self@.next_id as nat;
                let downloaded = sum_below(m, downloaded_of(), end);
                let total = sum_below(m, total_of(), end);
                let active = sum_below(m, active_of(), end);
                if downloaded <= u64::MAX && total <= u64::MAX && active <= u32::MAX {
                    r == Some(
                        DownloadEvent::GlobalProgress {
                            active_tasks: active as u32,
                            downloaded: downloaded as u64,
                            total: total as u64,
                        },
                    )
                } else {
                    r is None
                }
            }),
    {
        let ids: Vec<u64> = sorted_keys_u64(&self.tasks);
        let n: usize = ids.len();
        let mut downloaded: u64 = 0;
        let mut total: u64 = 0;
        let mut active_tasks: u32 = 0;
        let ghost m = self@.tasks;
        let ghost end = self@.next_id as nat;
        let ghost mut below: nat = 0;
        let mut i: usize = 0;
        while i < n
            invariant
                self.wf(),
                m == self@.tasks,
                end == self@.next_id,
                n == ids@.len(),
                0 <= i <= n,
                keys::lists_keys_u64(ids@, m),
                below == (if i == 0 {
                    0
                } else {
                    ids@[i - 1] + 1
                }),
                below <= end,
                downloaded == sum_below(m, downloaded_of(), below),
                total == sum_below(m, total_of(), below),
                active_tasks == sum_below(m, active_of(), below),
            decreases n - i,
        {
            let id: u64 = ids[i];
            proof {
                assert(ids@.contains(ids@[i as int]));
                assert(ids@.to_set().contains(id));
                assert(m.contains_key(id));
                assert forall|k: u64| below <= k < id implies !#[trigger] m.contains_key(k) by {
                    if m.contains_key(k) {
                        assert(ids@.to_set().contains(k));
                        let p = choose|p: int| 0 <= p < ids@.len() && ids@[p] == k;
                        if p < i - 1 {
                            assert(ids@[p] < ids@[i - 1]);
                        } else if p > i {
                            assert(ids@[i as int] < ids@[p]);
                        }
                    }
                }
                lemma_sum_gap(m, downloaded_of(), below, id as nat);
                lemma_sum_gap(m, total_of(), below, id as nat);
                lemma_sum_gap(m, active_of(), below, id as nat);
                below = (id + 1) as nat;
                lemma_sum_grows(m, downloaded_of(), below, end);
                lemma_sum_grows(m, total_of(), below, end);
                lemma_sum_grows(m, active_of(), below, end);
            }
            match self.tasks.get(&id) {
                Some(entry) => {
                    match downloaded.checked_add(entry.progress.downloaded) {
                        Some(sum) => {
                            downloaded = sum;
                        },
                        None => {
                            return None;
                        },
                    }
                    match total.checked_add(entry.progress.total) {
                        Some(sum) => {
                            total = sum;
                        },
                        None => {
                            return None;
                        },
                    }
                    if entry.state == TaskState::Downloading {
                        match active_tasks.checked_add(1) {
                            Some(sum) => {
                                active_tasks = sum;
                            },
                            None => {
                                return None;
                            },
                        }
                    }
                },
                None => {},
            }
            i = i + 1;
        }
        proof {
            assert forall|k: u64| below <= k < end implies !#[trigger] m.contains_key(k) by {
                if m.contains_key(k) {
                    assert(ids@.to_set().contains(k));
                    let p = choose|p: int| 0 <= p < ids@.len() && ids@[p] == k;
                    if p < n - 1 {
                        assert(ids@[p] < ids@[n - 1]);
                    }
                }
            }
            lemma_sum_gap(m, downloaded_of(), below, end);
            lemma_sum_gap(m, total_of(), below, end);
            lemma_sum_gap(m, active_of(), below, end);
        }
        Some(DownloadEvent::GlobalProgress { active_tasks, downloaded, total })
    }
}

/// The sum over all tasks is what one of them adds and the sum over the others; without tasks
/// it is zero.
pub proof fn law_sums_add_up(
    m: Map<u64, Entry>,
    f: spec_fn(Entry) -> nat,
    id: u64,
    below: nat,
)
    requires
        m.contains_key(id),
        id < below <= u64::MAX,
    ensures
        sum_below(m, f, below) == sum_below(m.remove(id), f, below) + f(m[id]),
        sum_below(Map::<u64, Entry>::empty(), f, below) == 0,
    decreases below,
{
    let last = (below - 1) as u64;
    lemma_sum_gap(Map::<u64, Entry>::empty(), f, 0, below);
    if last == id {
        lemma_sum_alike(m, m.remove(id), f, (below - 1) as nat);
    } else {
        law_sums_add_up(m, f, id, (below - 1) as nat);
    }
}

/// Tasks that are alike add alike.
proof fn lemma_sum_alike(
    m: Map<u64, Entry>,
    w: Map<u64, Entry>,
    f: spec_fn(Entry) -> nat,
    below: nat,
)
    requires
        below <= u64::MAX,
        forall|k: u64|
            k < below ==> (#[trigger] m.contains_key(k) <==> w.contains_key(k)) && m[k] == w[k],
    ensures
        sum_below(m, f, below) == sum_below(w, f, below),
    decreases below,
{
    if below > 0 {
        lemma_sum_alike(m, w, f, (below - 1) as nat);
        let k = (below - 1) as u64;
        assert(m.contains_key(k) <==> w.contains_key(k));
    }
}

/// A task adds the bytes that it has downloaded, the size of its file, and one to the number of
/// active tasks exactly while it is being downloaded.
pub proof fn law_what_a_task_adds(e: Entry)
    ensures
        downloaded_of()(e) == e.progress.downloaded,
        total_of()(e) == e.progress.total,
        e.state == TaskState::Downloading ==> active_of()(e) == 1,
        e.state != TaskState::Downloading ==> active_of()(e) == 0,
{
}

/// Each state has a name of its own in messages.
pub proof fn law_state_labels_differ(a: TaskState, b: TaskState)
    requires
        a != b,
    ensures
        state_label(a) != state_label(b),
{
    reveal_strlit("Queued");
    reveal_strlit("Downloading");
    reveal_strlit("Paused");
    reveal_strlit("Completed");
    reveal_strlit("Failed");
    reveal_strlit("Cancelled");
    assert(state_label(TaskState::Queued)[0] == 'Q');
    assert(state_label(TaskState::Downloading)[0] == 'D');
    assert(state_label(TaskState::Paused)[0] == 'P');
    assert(state_label(TaskState::Completed)[1] == 'o');
    assert(state_label(TaskState::Failed)[0] == 'F');
    assert(state_label(TaskState::Cancelled)[1] == 'a' && state_label(TaskState::Cancelled)[0] == 'C');
    assert(state_label(TaskState::Completed)[0] == 'C');
}

/// An operation that is refused gives an error with this text, and nothing else.
pub proof fn law_refusals_are_told<T>(r: Result<T, DownloadError>, message: Seq<char>)
    ensures
        refuses(r, message) <==> r is Err && r->Err_0 is Other && r->Err_0->Other_0@ == message,
{
}

/// Users are told the new state of a task, with no text.
pub proof fn law_state_events(id: u64, state: TaskState)
    ensures
        state_event(id, state) matches DownloadEvent::StateChanged { id: i, state: s, detail }
            && i == id && s == state && detail is None,
{
}

} // verus!
