//! What holds of the queue and the workers, whatever is done to the tasks.
use vstd::prelude::*;

use crate::error::DownloadError;
use crate::manager;
use crate::manager::{DownloadProgress, ManagerView};
use crate::ranged;
use crate::ranged::RangedView;
use crate::task::{DownloadEvent, DownloadTask, TaskState};

verus! {

impl ManagerView {
    /// The queue holds exactly the waiting tasks, each once, and until the manager is
    /// shut down every task that is being downloaded has a worker.
    pub open spec fn orderly(self) -> bool {
        &&& self.queue.no_duplicates()
        &&& forall|id: u64| #[trigger]
            self.queue.contains(id) <==> self.is_in(id, TaskState::Queued)
        &&& !self.closed ==> forall|id: u64|
            self.is_in(id, TaskState::Downloading) ==> #[trigger] self.running.contains(id)
    }

    /// The tasks that are being downloaded.
    pub open spec fn downloading(self) -> Set<u64> {
        self.tasks.dom().filter(|id: u64| self.is_in(id, TaskState::Downloading))
    }

    /// How many of the waiting tasks get a worker.
    pub open spec fn turn_of(self) -> int {
        if self.queue.len() <= self.capacity - self.running.len() {
            self.queue.len() as int
        } else {
            self.capacity - self.running.len()
        }
    }
}

/// Leaving a task out of the queue leaves the others in it.
proof fn lemma_others(queue: Seq<u64>, id: u64)
    ensures
        forall|x: u64| #[trigger] manager::others(queue, id).contains(x) <==> queue.contains(x) && x != id,
        queue.no_duplicates() ==> manager::others(queue, id).no_duplicates(),
    decreases queue.len(),
{
    reveal(Seq::filter);
    let r = manager::others(queue, id);
    if queue.len() > 0 {
        let rest = queue.drop_last();
        let last = queue.last();
        lemma_others(rest, id);
        let o = manager::others(rest, id);
        assert forall|x: u64| queue.contains(x) <==> rest.contains(x) || x == last by {
            if queue.contains(x) {
                let k = choose|k: int| 0 <= k < queue.len() && queue[k] == x;
                if k < queue.len() - 1 {
                    assert(rest[k] == x);
                }
            }
            if rest.contains(x) {
                let k = choose|k: int| 0 <= k < rest.len() && rest[k] == x;
                assert(queue[k] == x);
            }
            assert(queue[queue.len() - 1] == last);
        }
        if last != id {
            assert(r == o.push(last));
            assert forall|x: u64| r.contains(x) <==> o.contains(x) || x == last by {
                if r.contains(x) {
                    let k = choose|k: int| 0 <= k < r.len() && r[k] == x;
                    if k < o.len() {
                        assert(o[k] == x);
                    }
                }
                if o.contains(x) {
                    let k = choose|k: int| 0 <= k < o.len() && o[k] == x;
                    assert(r[k] == x);
                }
                assert(r[o.len() as int] == last);
            }
            if queue.no_duplicates() {
                assert(rest.no_duplicates());
                assert(!rest.contains(last)) by {
                    if rest.contains(last) {
                        let k = choose|k: int| 0 <= k < rest.len() && rest[k] == last;
                        assert(queue[k] == queue[queue.len() - 1]);
                    }
                }
                assert forall|i: int, j: int|
                    0 <= i < r.len() && 0 <= j < r.len() && i != j implies r[i] != r[j] by {
                    if i < o.len() {
                        assert(o.contains(o[i]));
                    }
                    if j < o.len() {
                        assert(o.contains(o[j]));
                    }
                }
            }
        } else {
            assert(r == o);
            if queue.no_duplicates() {
                assert(rest.no_duplicates());
            }
        }
    }
}

/// When a worker of task `id` is gone, those of other tasks remain.
proof fn lemma_one_less_others(running: Seq<u64>, id: u64)
    ensures
        forall|x: u64|
            x != id && running.contains(x) ==> #[trigger] manager::one_less(running, id).contains(x),
        manager::one_less(running, id).len() <= running.len(),
        running.contains(id) ==> manager::one_less(running, id).len() == running.len() - 1,
    decreases running.len(),
{
    if running.len() > 0 {
        let rest = running.drop_first();
        lemma_one_less_others(rest, id);
        let r = manager::one_less(running, id);
        assert forall|x: u64| x != id && running.contains(x) implies #[trigger] r.contains(x) by {
            let k = choose|k: int| 0 <= k < running.len() && running[k] == x;
            if running[0] == id {
                assert(r[k - 1] == x);
            } else if k == 0 {
                assert(r[0] == x);
            } else {
                assert(rest[k - 1] == x);
                let t = manager::one_less(rest, id);
                assert(t.contains(x));
                let q = choose|q: int| 0 <= q < t.len() && t[q] == x;
                assert(r[q + 1] == x);
            }
        }
        if running.contains(id) && running[0] != id {
            let k = choose|k: int| 0 <= k < running.len() && running[k] == id;
            assert(rest[k - 1] == id);
        }
    }
}

/// No more tasks are downloaded at once than there may be workers.
pub proof fn law_concurrency_limit(v: ManagerView)
    requires
        v.wf(),
        v.orderly(),
        !v.closed,
    ensures
        v.downloading().finite(),
        v.downloading().len() <= v.capacity,
{
    let d = v.downloading();
    let r = v.running.to_set();
    v.running.lemma_cardinality_of_set();
    vstd::seq_lib::seq_to_set_is_finite(v.running);
    assert(d.subset_of(r)) by {
        assert forall|id: u64| d.contains(id) implies r.contains(id) by {
            assert(v.is_in(id, TaskState::Downloading));
            assert(v.running.contains(id));
        }
    }
    vstd::set_lib::lemma_len_subset(d, r);
}

/// Adding a task keeps the queue in order.
pub proof fn law_add_keeps_order(v: ManagerView, task: DownloadTask)
    requires
        v.wf(),
        v.orderly(),
        v.next_id < u64::MAX,
    ensures
        v.added(task).orderly(),
{
    let w = v.added(task);
    let new = v.next_id;
    assert(!v.tasks.contains_key(new));
    assert(!v.queue.contains(new)) by {
        if v.queue.contains(new) {
            assert(v.is_in(new, TaskState::Queued));
        }
    }
    lemma_push(v.queue, new);
    assert forall|id: u64| #[trigger] w.queue.contains(id) <==> w.is_in(id, TaskState::Queued) by {
        assert(v.queue.contains(id) <==> v.is_in(id, TaskState::Queued));
    }
}

/// Putting a task at the end of a queue that does not hold it.
proof fn lemma_push(queue: Seq<u64>, id: u64)
    requires
        !queue.contains(id),
    ensures
        forall|x: u64| #[trigger] queue.push(id).contains(x) <==> queue.contains(x) || x == id,
        queue.no_duplicates() ==> queue.push(id).no_duplicates(),
{
    let w = queue.push(id);
    assert forall|x: u64| #[trigger] w.contains(x) <==> queue.contains(x) || x == id by {
        if queue.contains(x) {
            let k = choose|k: int| 0 <= k < queue.len() && queue[k] == x;
            assert(w[k] == x);
        }
        assert(w[queue.len() as int] == id);
        if w.contains(x) {
            let k = choose|k: int| 0 <= k < w.len() && w[k] == x;
            if k < queue.len() {
                assert(queue[k] == x);
            }
        }
    }
    if queue.no_duplicates() {
        assert forall|i: int, j: int|
            0 <= i < w.len() && 0 <= j < w.len() && i != j implies w[i] != w[j] by {
            if i < queue.len() {
                assert(queue.contains(queue[i]));
            }
            if j < queue.len() {
                assert(queue.contains(queue[j]));
            }
        }
    }
}

/// Pausing a task keeps the queue in order.
pub proof fn law_pause_keeps_order(v: ManagerView, id: u64)
    requires
        v.wf(),
        v.orderly(),
        v.tasks.contains_key(id),
    ensures
        v.paused(id).orderly(),
        v.paused(id).is_in(id, TaskState::Paused),
{
    let w = v.paused(id);
    lemma_others(v.queue, id);
    assert forall|x: u64| #[trigger] w.queue.contains(x) <==> w.is_in(x, TaskState::Queued) by {
        assert(v.queue.contains(x) <==> v.is_in(x, TaskState::Queued));
    }
    assert forall|x: u64|
        !w.closed && w.is_in(x, TaskState::Downloading) implies #[trigger] w.running.contains(x) by {
        assert(v.is_in(x, TaskState::Downloading));
    }
}

/// Putting a task that is not waiting back into the queue, as resuming and retrying
/// do, keeps the queue in order.
pub proof fn law_requeue_keeps_order(v: ManagerView, id: u64)
    requires
        v.wf(),
        v.orderly(),
        v.tasks.contains_key(id),
        v.tasks[id].state != TaskState::Queued,
    ensures
        v.requeued(id).orderly(),
{
    let w = v.requeued(id);
    assert(!v.queue.contains(id)) by {
        if v.queue.contains(id) {
            assert(v.is_in(id, TaskState::Queued));
        }
    }
    lemma_push(v.queue, id);
    assert forall|x: u64| #[trigger] w.queue.contains(x) <==> w.is_in(x, TaskState::Queued) by {
        assert(v.queue.contains(x) <==> v.is_in(x, TaskState::Queued));
    }
    assert forall|x: u64|
        !w.closed && w.is_in(x, TaskState::Downloading) implies #[trigger] w.running.contains(x) by {
        assert(v.is_in(x, TaskState::Downloading));
    }
}

/// Cancelling a task, and forgetting it, keeps the queue in order.
pub proof fn law_cancel_keeps_order(v: ManagerView, id: u64)
    requires
        v.wf(),
        v.orderly(),
        v.tasks.contains_key(id),
    ensures
        v.cancelled(id).orderly(),
        v.cancelled(id).forgotten(id).orderly(),
        !v.cancelled(id).forgotten(id).tasks.contains_key(id),
{
    let w = v.cancelled(id);
    let u = w.forgotten(id);
    lemma_others(v.queue, id);
    assert forall|x: u64| #[trigger] w.queue.contains(x) <==> w.is_in(x, TaskState::Queued) by {
        assert(v.queue.contains(x) <==> v.is_in(x, TaskState::Queued));
    }
    assert forall|x: u64| #[trigger] u.queue.contains(x) <==> u.is_in(x, TaskState::Queued) by {
        assert(v.queue.contains(x) <==> v.is_in(x, TaskState::Queued));
    }
    assert forall|x: u64|
        !w.closed && w.is_in(x, TaskState::Downloading) implies #[trigger] w.running.contains(x) by {
        assert(v.is_in(x, TaskState::Downloading));
    }
    assert forall|x: u64|
        !u.closed && u.is_in(x, TaskState::Downloading) implies #[trigger] u.running.contains(x) by {
        assert(v.is_in(x, TaskState::Downloading));
    }
}

/// The end of a worker keeps the queue in order, provided that the task has not been
/// put back into the queue meanwhile, and that no worker reports to have been stopped
/// while its task is still to be downloaded by it.
pub proof fn law_finish_keeps_order(
    v: ManagerView,
    id: u64,
    host: Seq<char>,
    result: Result<(), DownloadError>,
)
    requires
        v.wf(),
        v.orderly(),
        !v.is_in(id, TaskState::Queued),
        v.is_in(id, TaskState::Downloading) && result is Err && result->Err_0 is Cancelled
            ==> v.closed || manager::one_less(v.running, id).contains(id),
    ensures
        v.finished(id, host, result).orderly(),
{
    let w = v.finished(id, host, result);
    lemma_one_less_others(v.running, id);
    assert forall|x: u64| #[trigger] w.queue.contains(x) <==> w.is_in(x, TaskState::Queued) by {
        assert(v.queue.contains(x) <==> v.is_in(x, TaskState::Queued));
    }
    assert forall|x: u64|
        !w.closed && w.is_in(x, TaskState::Downloading) implies #[trigger] w.running.contains(x) by {
        assert(v.is_in(x, TaskState::Downloading));
        assert(v.running.contains(x));
        if x != id {
            assert(manager::one_less(v.running, id).contains(x));
        }
    }
}

/// Beginning the first waiting task keeps the queue in order.
proof fn lemma_begun_orderly(v: ManagerView)
    requires
        v.wf(),
        v.orderly(),
        v.queue.len() > 0,
        v.running.len() < v.capacity,
    ensures
        v.tasks.contains_key(v.queue[0]),
        v.begun(v.queue[0]).wf(),
        v.begun(v.queue[0]).orderly(),
{
    let id = v.queue[0];
    assert(v.queue.contains(id));
    assert(v.is_in(id, TaskState::Queued));
    let w = v.begun(id);
    let rest = v.queue.drop_first();
    assert forall|x: u64| #[trigger] rest.contains(x) <==> v.queue.contains(x) && x != id by {
        if rest.contains(x) {
            let k = choose|k: int| 0 <= k < rest.len() && rest[k] == x;
            assert(v.queue[k + 1] == x);
            assert(v.queue[k + 1] != v.queue[0]);
        }
        if v.queue.contains(x) && x != id {
            let k = choose|k: int| 0 <= k < v.queue.len() && v.queue[k] == x;
            assert(rest[k - 1] == x);
        }
    }
    assert(rest.no_duplicates());
    assert forall|x: u64| #[trigger] w.queue.contains(x) <==> w.is_in(x, TaskState::Queued) by {
        assert(v.queue.contains(x) <==> v.is_in(x, TaskState::Queued));
    }
    assert forall|x: u64|
        !w.closed && w.is_in(x, TaskState::Downloading) implies #[trigger] w.running.contains(x) by {
        if x == id {
            assert(w.running[v.running.len() as int] == id);
        } else {
            assert(v.is_in(x, TaskState::Downloading));
            assert(v.running.contains(x));
            let k = choose|k: int| 0 <= k < v.running.len() && v.running[k] == x;
            assert(w.running[k] == x);
        }
    }
}

/// Waiting tasks get workers in the order in which they came, and no worker is left
/// idle while a task waits.
pub proof fn law_first_come_first_served(v: ManagerView)
    requires
        v.wf(),
        v.orderly(),
        !v.closed,
    ensures
        v.dispatched().wf(),
        v.dispatched().orderly(),
        v.dispatched().running == v.running + v.queue.take(v.turn_of()),
        v.dispatched().queue == v.queue.skip(v.turn_of()),
        v.dispatched().queue.len() == 0 || v.dispatched().running.len() == v.capacity,
        v.dispatched().capacity == v.capacity,
    decreases v.queue.len(),
{
    if v.queue.len() == 0 {
        assert(v.running =~= v.running + v.queue.take(0));
        assert(v.queue =~= v.queue.skip(0));
    } else {
        let id = v.queue[0];
        assert(v.queue.contains(id));
        assert(v.is_in(id, TaskState::Queued));
        if v.running.len() >= v.capacity {
            assert(v.running =~= v.running + v.queue.take(0));
            assert(v.queue =~= v.queue.skip(0));
        } else {
            lemma_begun_orderly(v);
            let w = v.begun(id);
            law_first_come_first_served(w);
            assert(w.turn_of() == v.turn_of() - 1);
            assert(v.dispatched() == w.dispatched());
            assert(w.running + w.queue.take(w.turn_of()) =~= v.running + v.queue.take(
                v.turn_of(),
            ));
            assert(w.queue.skip(w.turn_of()) =~= v.queue.skip(v.turn_of()));
        }
    }
}

/// A task begins to be downloaded only from the queue; nothing else about any task
/// changes when workers are begun.
pub proof fn law_only_waiting_tasks_begin(v: ManagerView, id: u64)
    requires
        v.wf(),
        v.orderly(),
    ensures
        v.dispatched().tasks.contains_key(id) == v.tasks.contains_key(id),
        v.dispatched().tasks[id].task == v.tasks[id].task,
        v.dispatched().tasks[id].progress == v.tasks[id].progress,
        v.dispatched().stopped == v.stopped,
        v.dispatched().tasks[id].state == v.tasks[id].state || v.is_in(id, TaskState::Queued)
            && v.dispatched().is_in(id, TaskState::Downloading),
    decreases v.queue.len(),
{
    if !v.closed && v.queue.len() > 0 {
        let first = v.queue[0];
        assert(v.queue.contains(first));
        assert(v.is_in(first, TaskState::Queued));
        if v.running.len() < v.capacity {
            lemma_begun_orderly(v);
            law_only_waiting_tasks_begin(v.begun(first), id);
        }
    }
}

/// Pausing a task that waits or is being downloaded and then resuming it puts it at
/// the end of the queue and tells users so; what has been downloaded, what is put by, and every
/// other task, is as it was.
pub proof fn law_pause_then_resume(v: ManagerView, id: u64, other: u64)
    requires
        v.wf(),
        v.orderly(),
        v.is_in(id, TaskState::Queued) || v.is_in(id, TaskState::Downloading),
        other != id,
    ensures
        v.paused(id).is_in(id, TaskState::Paused),
        !v.paused(id).queue.contains(id),
        ({
            let w = v.paused(id).requeued(id);
            &&& w.is_in(id, TaskState::Queued)
            &&& w.queue.last() == id
            &&& w.events == v.events.push(manager::state_event(id, TaskState::Queued))
            &&& w.orderly()
            &&& w.tasks[id].task == v.tasks[id].task
            &&& w.tasks[id].progress == v.tasks[id].progress
            &&& w.stopped == v.stopped
            &&& w.tasks.contains_key(other) == v.tasks.contains_key(other)
            &&& w.tasks[other] == v.tasks[other]
            &&& w.queue.contains(other) == v.queue.contains(other)
        }),
{
    law_pause_keeps_order(v, id);
    let p = v.paused(id);
    assert(p.queue.contains(id) <==> p.is_in(id, TaskState::Queued));
    law_requeue_keeps_order(p, id);
    let w = p.requeued(id);
    assert(w.queue.contains(other) <==> w.is_in(other, TaskState::Queued));
    assert(v.queue.contains(other) <==> v.is_in(other, TaskState::Queued));
}

/// No id is given twice: the next id belongs to no task, adding a task uses it up,
/// and nothing else, not even forgetting a task, gives an id back.
pub proof fn law_ids_are_never_reused(
    v: ManagerView,
    task: DownloadTask,
    id: u64,
    host: Seq<char>,
    result: Result<(), DownloadError>,
)
    requires
        v.wf(),
        v.next_id < u64::MAX,
    ensures
        !v.tasks.contains_key(v.next_id),
        v.added(task).tasks.contains_key(v.next_id),
        v.added(task).next_id == v.next_id + 1,
        v.paused(id).next_id == v.next_id,
        v.cancelled(id).forgotten(id).next_id == v.next_id,
        v.requeued(id).next_id == v.next_id,
        v.finished(id, host, result).next_id == v.next_id,
        v.dispatched().next_id == v.next_id,
{
    lemma_dispatch_keeps_ids(v);
}

/// Beginning workers gives no ids.
proof fn lemma_dispatch_keeps_ids(v: ManagerView)
    ensures
        v.dispatched().next_id == v.next_id,
    decreases v.queue.len(),
{
    if !v.closed && v.queue.len() > 0 {
        if !v.tasks.contains_key(v.queue[0]) {
            lemma_dispatch_keeps_ids(ManagerView { queue: v.queue.drop_first(), ..v });
        } else if v.running.len() < v.capacity {
            lemma_dispatch_keeps_ids(v.begun(v.queue[0]));
        }
    }
}

/// A worker that ends frees its place, so that the next waiting task gets one.
pub proof fn law_finished_worker_makes_room(
    v: ManagerView,
    id: u64,
    host: Seq<char>,
    result: Result<(), DownloadError>,
)
    requires
        v.wf(),
        v.running.contains(id),
    ensures
        v.finished(id, host, result).running.len() == v.running.len() - 1,
        v.finished(id, host, result).running.len() < v.capacity,
{
    lemma_one_less_others(v.running, id);
}

/// What was put by when a run was stopped is what the next run takes up, byte for byte:
/// pausing, waiting again, the end of the worker, whatever it reports, and the beginning of
/// the next leave it alone. Cancelling, which deletes the partial file, clears it.
pub proof fn law_put_by_until_the_next_run(
    v: ManagerView,
    id: u64,
    run: RangedView,
    host: Seq<char>,
    result: Result<(), DownloadError>,
    offset: int,
)
    requires
        v.wf(),
        v.orderly(),
        run.wf(),
        v.tasks.contains_key(id),
    ensures
        ({
            let w = v.put_by(id, run);
            &&& w.wf()
            &&& w.orderly()
            &&& w.stopped.contains_key(id)
            &&& w.stopped[id].written(offset) <==> run.written(offset)
            &&& w.paused(id).stopped == w.stopped
            &&& w.requeued(id).stopped == w.stopped
            &&& w.finished(id, host, result).stopped == w.stopped
            &&& w.dispatched().stopped == w.stopped
        }),
        !v.cancelled(id).stopped.contains_key(id),
        !v.cancelled(id).forgotten(id).stopped.contains_key(id),
{
    let w = v.put_by(id, run);
    ranged::law_nothing_is_fetched_twice(run, offset);
    assert forall|x: u64| #[trigger] w.queue.contains(x) <==> w.is_in(x, TaskState::Queued) by {
        assert(v.queue.contains(x) <==> v.is_in(x, TaskState::Queued));
    }
    assert forall|x: u64|
        !w.closed && w.is_in(x, TaskState::Downloading) implies #[trigger] w.running.contains(x) by {
        assert(v.is_in(x, TaskState::Downloading));
    }
    law_only_waiting_tasks_begin(w, id);
}

/// The end of a worker decides the state of its task by its result alone: the task is completed
/// exactly when the result is a success, and failed exactly when it is an error of whatever
/// kind but a cancellation. A worker that was stopped leaves the task as it is. Either way one
/// of the places of its workers is free, and no other task changes.
pub proof fn law_result_decides_the_state(
    v: ManagerView,
    id: u64,
    host: Seq<char>,
    result: Result<(), DownloadError>,
    other: u64,
)
    requires
        v.wf(),
        other != id,
    ensures
        ({
            let w = v.finished(id, host, result);
            &&& v.tasks.contains_key(id) ==> {
                &&& result is Ok ==> w.is_in(id, TaskState::Completed)
                &&& result is Err && !(result->Err_0 is Cancelled) ==> w.is_in(
                    id,
                    TaskState::Failed,
                )
                &&& result is Err && result->Err_0 is Cancelled ==> w.is_in(id, v.tasks[id].state)
                &&& v.tasks[id].state != TaskState::Completed ==> (w.is_in(id, TaskState::Completed)
                    <==> result is Ok)
                &&& v.tasks[id].state != TaskState::Failed ==> (w.is_in(id, TaskState::Failed)
                    <==> result is Err && !(result->Err_0 is Cancelled))
                &&& w.tasks[id].task == v.tasks[id].task
                &&& w.tasks[id].progress == v.tasks[id].progress
            }
            &&& w.tasks.contains_key(id) == v.tasks.contains_key(id)
            &&& w.tasks.contains_key(other) == v.tasks.contains_key(other)
            &&& w.tasks[other] == v.tasks[other]
            &&& w.queue == v.queue
            &&& w.next_id == v.next_id && w.capacity == v.capacity && w.closed == v.closed
            &&& w.events == v.events
        }),
        result is Ok ==> v.state_after(id, result) == TaskState::Completed,
        result is Err && !(result->Err_0 is Cancelled) ==> v.state_after(id, result)
            == TaskState::Failed,
        result is Err && result->Err_0 is Cancelled ==> v.state_after(id, result) == (
        if v.tasks.contains_key(id) {
            v.tasks[id].state
        } else {
            TaskState::Cancelled
        }),
{
}

/// After an error what is known of the host is forgotten, so that it is asked again; after a
/// success it is kept, and so is what is known of every other host.
pub proof fn law_errors_make_the_host_be_asked_again(
    v: ManagerView,
    id: u64,
    host: Seq<char>,
    result: Result<(), DownloadError>,
    other: Seq<char>,
)
    requires
        other != host,
    ensures
        result is Err ==> !v.finished(id, host, result).hosts.contains_key(host),
        result is Ok ==> v.finished(id, host, result).hosts == v.hosts,
        v.finished(id, host, result).hosts.contains_key(other) == v.hosts.contains_key(other),
        v.hosts.contains_key(other) ==> v.finished(id, host, result).hosts[other]
            == v.hosts[other],
{
}

/// The end of a worker takes exactly one place, that of a worker on the same task; the others
/// keep theirs.
pub proof fn law_one_place_is_freed(running: Seq<u64>, id: u64)
    ensures
        running.contains(id) ==> exists|i: int|
            0 <= i < running.len() && running[i] == id && manager::one_less(running, id)
                == #[trigger] running.remove(i),
        !running.contains(id) ==> manager::one_less(running, id) == running,
    decreases running.len(),
{
    if running.len() > 0 {
        let rest = running.drop_first();
        let r = manager::one_less(running, id);
        if running[0] == id {
            assert(r =~= running.remove(0));
            assert(running.contains(id));
        } else {
            law_one_place_is_freed(rest, id);
            if running.contains(id) {
                let k = choose|k: int| 0 <= k < running.len() && running[k] == id;
                assert(rest[k - 1] == id);
                let i = choose|i: int|
                    0 <= i < rest.len() && rest[i] == id && manager::one_less(rest, id)
                        == #[trigger] rest.remove(i);
                assert(r =~= running.remove(i + 1));
                assert(running[i + 1] == id);
            } else {
                assert(!rest.contains(id)) by {
                    if rest.contains(id) {
                        let k = choose|k: int| 0 <= k < rest.len() && rest[k] == id;
                        assert(running[k + 1] == id);
                    }
                }
                assert(r =~= running);
            }
        }
    } else {
        assert(!running.contains(id));
    }
}

/// A task that leaves the queue leaves the others in it, in their order.
pub proof fn law_leaving_the_queue(queue: Seq<u64>, id: u64, i: int)
    requires
        queue.no_duplicates(),
    ensures
        0 <= i < queue.len() && queue[i] == id ==> manager::others(queue, id) == queue.remove(i),
        !queue.contains(id) ==> manager::others(queue, id) == queue,
    decreases queue.len(),
{
    reveal(Seq::filter);
    let r = manager::others(queue, id);
    if queue.len() > 0 {
        let rest = queue.drop_last();
        let last = queue.last();
        assert(rest.no_duplicates());
        let n = queue.len() - 1;
        law_leaving_the_queue(rest, id, i);
        if 0 <= i < queue.len() && queue[i] == id {
            if i == n {
                assert(!rest.contains(id)) by {
                    if rest.contains(id) {
                        let k = choose|k: int| 0 <= k < rest.len() && rest[k] == id;
                        assert(queue[k] == queue[n]);
                    }
                }
                assert(r =~= queue.remove(i));
            } else {
                assert(rest[i] == id);
                assert(queue[i] != queue[n]);
                assert(r =~= queue.remove(i));
            }
        }
        if !queue.contains(id) {
            assert(!rest.contains(id)) by {
                if rest.contains(id) {
                    let k = choose|k: int| 0 <= k < rest.len() && rest[k] == id;
                    assert(queue[k] == id);
                }
            }
            assert(queue[n] != id);
            assert(r =~= queue);
        }
    }
}

/// A new task waits, last in the queue, with nothing downloaded, under the next id, and users
/// are told; every other task is as it was.
pub proof fn law_added_task_waits(v: ManagerView, task: DownloadTask, other: u64)
    requires
        v.wf(),
        v.next_id < u64::MAX,
        other != v.next_id,
    ensures
        ({
            let w = v.added(task);
            let id = v.next_id;
            &&& w.wf()
            &&& w.is_in(id, TaskState::Queued)
            &&& w.tasks[id].task.id == id
            &&& w.tasks[id].task == (DownloadTask { id, ..task })
            &&& w.tasks[id].progress.downloaded == 0
            &&& w.tasks[id].progress.total == 0
            &&& w.tasks[id].progress.active_segments == 0
            &&& w.queue == v.queue.push(id)
            &&& w.events.len() == v.events.len() + 1
            &&& w.events.drop_last() == v.events
            &&& w.events.last() == (DownloadEvent::StateChanged {
                id,
                state: TaskState::Queued,
                detail: None,
            })
            &&& w.tasks.contains_key(other) == v.tasks.contains_key(other)
            &&& w.tasks[other] == v.tasks[other]
            &&& w.running == v.running && w.capacity == v.capacity && w.closed == v.closed
            &&& w.hosts == v.hosts && w.stopped == v.stopped && w.options == v.options
        }),
{
    let w = v.added(task);
    assert(w.events.drop_last() =~= v.events);
}

/// Pausing, resuming or retrying, and cancelling put a task into the state that they are named
/// after, change nothing else about it, and leave every other task, the workers, and what is
/// known of the hosts as they were. Only a task that waits again is in the queue, at
/// its end, and only of that are users told at once.
pub proof fn law_operations_touch_one_task(v: ManagerView, id: u64, other: u64)
    requires
        v.wf(),
        v.tasks.contains_key(id),
        other != id,
    ensures
        ({
            let p = v.paused(id);
            &&& p.is_in(id, TaskState::Paused)
            &&& p.tasks[id].task == v.tasks[id].task
            &&& p.tasks[id].progress == v.tasks[id].progress
            &&& p.tasks.contains_key(other) == v.tasks.contains_key(other)
            &&& p.tasks[other] == v.tasks[other]
            &&& v.is_in(id, TaskState::Queued) ==> !p.queue.contains(id)
            &&& !v.is_in(id, TaskState::Queued) ==> p.queue == v.queue
            &&& p.queue.contains(other) == v.queue.contains(other)
            &&& p.running == v.running && p.hosts == v.hosts && p.stopped == v.stopped
            &&& p.events == v.events
        }),
        ({
            let q = v.requeued(id);
            &&& q.is_in(id, TaskState::Queued)
            &&& q.tasks[id].task == v.tasks[id].task
            &&& q.tasks[id].progress == v.tasks[id].progress
            &&& q.tasks.contains_key(other) == v.tasks.contains_key(other)
            &&& q.tasks[other] == v.tasks[other]
            &&& q.queue == v.queue.push(id)
            &&& q.running == v.running && q.hosts == v.hosts && q.stopped == v.stopped
            &&& q.events == v.events.push(
                DownloadEvent::StateChanged { id, state: TaskState::Queued, detail: None },
            )
        }),
        ({
            let c = v.cancelled(id);
            &&& c.is_in(id, TaskState::Cancelled)
            &&& c.tasks[id].task == v.tasks[id].task
            &&& c.tasks[id].progress == v.tasks[id].progress
            &&& c.tasks.contains_key(other) == v.tasks.contains_key(other)
            &&& c.tasks[other] == v.tasks[other]
            &&& !c.queue.contains(id)
            &&& c.queue.contains(other) == v.queue.contains(other)
            &&& !c.stopped.contains_key(id)
            &&& c.stopped.contains_key(other) == v.stopped.contains_key(other)
            &&& v.stopped.contains_key(other) ==> c.stopped[other] == v.stopped[other]
            &&& c.running == v.running && c.hosts == v.hosts && c.events == v.events
            &&& !c.forgotten(id).tasks.contains_key(id)
            &&& c.forgotten(id).tasks.contains_key(other) == v.tasks.contains_key(other)
            &&& v.tasks.contains_key(other) ==> c.forgotten(id).tasks[other] == v.tasks[other]
        }),
{
    lemma_others(v.queue, id);
    assert(manager::others(v.queue, id).contains(other) <==> v.queue.contains(other));
    assert(!manager::others(v.queue, id).contains(id));
}

/// Each task that is begun is told to users, in the order in which they begin; a manager that
/// has been shut down begins none, and a task that got no worker stays as it was.
pub proof fn law_beginnings_are_told(v: ManagerView, id: u64)
    requires
        v.wf(),
        v.orderly(),
    ensures
        v.closed ==> v.dispatched() == v,
        !v.closed ==> {
            let n = v.turn_of();
            &&& v.dispatched().events == v.events + Seq::new(
                n as nat,
                |i: int|
                    DownloadEvent::StateChanged {
                        id: v.queue[i],
                        state: TaskState::Downloading,
                        detail: None,
                    },
            )
            &&& v.queue.take(n).contains(id) ==> v.dispatched().is_in(id, TaskState::Downloading)
            &&& !v.queue.take(n).contains(id) ==> v.dispatched().tasks[id] == v.tasks[id]
        },
        v.dispatched().hosts == v.hosts,
        v.dispatched().capacity == v.capacity,
        v.dispatched().closed == v.closed,
    decreases v.queue.len(),
{
    if !v.closed {
        let n = v.turn_of();
        let told = Seq::new(
            n as nat,
            |i: int|
                DownloadEvent::StateChanged {
                    id: v.queue[i],
                    state: TaskState::Downloading,
                    detail: None,
                },
        );
        if v.queue.len() == 0 || v.running.len() >= v.capacity {
            if v.queue.len() > 0 {
                assert(v.queue.contains(v.queue[0]));
                assert(v.is_in(v.queue[0], TaskState::Queued));
            }
            assert(n == 0);
            assert(v.events =~= v.events + told);
            assert(!v.queue.take(n).contains(id));
        } else {
            let first = v.queue[0];
            assert(v.queue.contains(first));
            assert(v.is_in(first, TaskState::Queued));
            lemma_begun_orderly(v);
            let w = v.begun(first);
            law_beginnings_are_told(w, id);
            assert(v.dispatched() == w.dispatched());
            let m = w.turn_of();
            assert(m == n - 1);
            let rest = Seq::new(
                m as nat,
                |i: int|
                    DownloadEvent::StateChanged {
                        id: w.queue[i],
                        state: TaskState::Downloading,
                        detail: None,
                    },
            );
            assert(w.events + rest =~= v.events + told);
            let t = v.queue.take(n);
            let u = w.queue.take(m);
            assert(t =~= seq![first] + u);
            if t.contains(id) && id != first {
                let i = choose|i: int| 0 <= i < t.len() && t[i] == id;
                assert(u[i - 1] == id);
            }
            if u.contains(id) {
                let i = choose|i: int| 0 <= i < u.len() && u[i] == id;
                assert(t[i + 1] == id);
            }
            assert(t[0] == first);
            if id == first && !u.contains(id) {
                assert(w.dispatched().tasks[id] == w.tasks[id]);
                law_only_waiting_tasks_begin(w, id);
                assert(w.is_in(id, TaskState::Downloading));
            }
        }
    }
}

/// A new report of the progress of a task changes that and nothing else.
pub proof fn law_progress_changes_nothing_else(
    v: ManagerView,
    id: u64,
    progress: DownloadProgress,
    other: u64,
)
    requires
        v.wf(),
        v.tasks.contains_key(id),
        other != id,
    ensures
        ({
            let w = v.progressed(id, progress);
            &&& w.tasks[id].progress == progress
            &&& w.tasks[id].state == v.tasks[id].state
            &&& w.tasks[id].task == v.tasks[id].task
            &&& w.tasks.contains_key(other) == v.tasks.contains_key(other)
            &&& w.tasks[other] == v.tasks[other]
            &&& w.queue == v.queue && w.running == v.running && w.events == v.events
            &&& w.hosts == v.hosts && w.stopped == v.stopped && w.next_id == v.next_id
            &&& w.closed == v.closed && w.capacity == v.capacity && w.options == v.options
        }),
{
}

/// What is put by, or taken up again, for one task concerns no other and nothing else.
pub proof fn law_put_by_for_one_task(v: ManagerView, id: u64, run: RangedView, other: u64)
    requires
        other != id,
    ensures
        ({
            let w = v.put_by(id, run);
            let u = v.taken_up(id);
            &&& w.stopped.contains_key(id)
            &&& w.stopped[id].segments == run.segments
            &&& w.stopped[id].retired == run.retired
            &&& w.stopped[id].total == run.total
            &&& w.stopped.contains_key(other) == v.stopped.contains_key(other)
            &&& v.stopped.contains_key(other) ==> w.stopped[other] == v.stopped[other]
            &&& !u.stopped.contains_key(id)
            &&& u.stopped.contains_key(other) == v.stopped.contains_key(other)
            &&& v.stopped.contains_key(other) ==> u.stopped[other] == v.stopped[other]
            &&& w == (ManagerView { stopped: w.stopped, ..v })
            &&& u == (ManagerView { stopped: u.stopped, ..v })
        }),
{
}

/// What the manager was made with stays as it is, whatever is done to tasks, and nothing but
/// shutting it down closes it.
pub proof fn law_settings_stay(
    v: ManagerView,
    task: DownloadTask,
    id: u64,
    host: Seq<char>,
    result: Result<(), DownloadError>,
)
    requires
        v.wf(),
    ensures
        v.added(task) == (ManagerView {
            options: v.options,
            capacity: v.capacity,
            closed: v.closed,
            ..v.added(task)
        }),
        v.paused(id) == (ManagerView {
            options: v.options,
            capacity: v.capacity,
            closed: v.closed,
            next_id: v.next_id,
            ..v.paused(id)
        }),
        v.requeued(id) == (ManagerView {
            options: v.options,
            capacity: v.capacity,
            closed: v.closed,
            next_id: v.next_id,
            ..v.requeued(id)
        }),
        v.cancelled(id).forgotten(id) == (ManagerView {
            options: v.options,
            capacity: v.capacity,
            closed: v.closed,
            next_id: v.next_id,
            ..v.cancelled(id).forgotten(id)
        }),
        v.finished(id, host, result) == (ManagerView {
            options: v.options,
            capacity: v.capacity,
            closed: v.closed,
            next_id: v.next_id,
            stopped: v.stopped,
            ..v.finished(id, host, result)
        }),
        v.dispatched() == (ManagerView {
            options: v.options,
            capacity: v.capacity,
            closed: v.closed,
            next_id: v.next_id,
            stopped: v.stopped,
            hosts: v.hosts,
            ..v.dispatched()
        }),
{
    lemma_dispatch_keeps_settings(v);
}

/// Beginning workers changes nothing but the tasks, the queue, the workers and the events.
proof fn lemma_dispatch_keeps_settings(v: ManagerView)
    ensures
        v.dispatched().options == v.options,
        v.dispatched().capacity == v.capacity,
        v.dispatched().closed == v.closed,
        v.dispatched().next_id == v.next_id,
        v.dispatched().stopped == v.stopped,
        v.dispatched().hosts == v.hosts,
    decreases v.queue.len(),
{
    if !v.closed && v.queue.len() > 0 {
        if !v.tasks.contains_key(v.queue[0]) {
            lemma_dispatch_keeps_settings(ManagerView { queue: v.queue.drop_first(), ..v });
        } else if v.running.len() < v.capacity {
            lemma_dispatch_keeps_settings(v.begun(v.queue[0]));
        }
    }
}

/// The id of a task that is gone never holds up the queue.
pub proof fn law_gone_tasks_hold_up_nothing(v: ManagerView, id: u64)
    requires
        !v.closed,
        !v.tasks.contains_key(id),
    ensures
        (ManagerView { queue: seq![id] + v.queue, ..v }).dispatched() == v.dispatched(),
{
    let w = ManagerView { queue: seq![id] + v.queue, ..v };
    assert(w.queue.drop_first() =~= v.queue);
    assert((ManagerView { queue: w.queue.drop_first(), ..w }) == v);
}

} // verus!
