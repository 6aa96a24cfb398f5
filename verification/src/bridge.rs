//! What callers in other languages are given: texts in JSON for tasks, lists and
//! results.
use vstd::prelude::*;

use crate::error::DownloadError;
use crate::headers;
use crate::hex;
use crate::keys;
use crate::manager;
use crate::manager::{DownloadManager, DownloadProgress};
use crate::task::{DestPath, DownloadTask, TaskId, TaskState};
use crate::text;
use crate::text::{decimal_text, trimmed_chars};

verus! {

/// The JSON string, in quotes, that `serde_json` writes for a text.
pub uninterp spec fn json_text(text: Seq<char>) -> Seq<char>;

/// The pairs that `serde_json` reads in a text, if the text is a list of lists of two
/// strings each.
pub uninterp spec fn json_pairs(text: Seq<char>) -> Option<Seq<(Seq<char>, Seq<char>)>>;

/// The texts of a list of pairs.
pub open spec fn pair_texts(pairs: Seq<(String, String)>) -> Seq<(Seq<char>, Seq<char>)> {
    pairs.map_values(|p: (String, String)| (p.0@, p.1@))
}

/// Writes a text as a JSON string, with the `to_string` of `serde_json::Value`. What
/// it escapes depends on the text alone and is left to it.
#[verifier::external_body]
fn json_string(text: &str) -> (s: String)
    ensures
        s@ == json_text(text@),
{
    serde_json::Value::String(text.to_owned()).to_string()
}

/// Reads a list of pairs of strings with `serde_json::from_str`. Which texts it
/// accepts, and what it unescapes, depends on the text alone and is left to it.
#[verifier::external_body]
fn read_pairs(json: &str) -> (r: Option<Vec<(String, String)>>)
    ensures
        match r {
            Some(pairs) => json_pairs(json@) == Some(pair_texts(pairs@)),
            None => json_pairs(json@) is None,
        },
{
    serde_json::from_str::<Vec<(String, String)>>(json).ok()
}

/// The name of a state.
pub open spec fn state_text(s: TaskState) -> Seq<char> {
    match s {
        TaskState::Queued => "queued"@,
        TaskState::Downloading => "downloading"@,
        TaskState::Paused => "paused"@,
        TaskState::Completed => "completed"@,
        TaskState::Failed => "failed"@,
        TaskState::Cancelled => "cancelled"@,
    }
}

/// The name of a state.
pub fn state_name(s: TaskState) -> (r: &'static str)
    ensures
        r@ == state_text(s),
{
    match s {
        TaskState::Queued => "queued",
        TaskState::Downloading => "downloading",
        TaskState::Paused => "paused",
        TaskState::Completed => "completed",
        TaskState::Failed => "failed",
        TaskState::Cancelled => "cancelled",
    }
}

/// The pairs that were read, or none.
pub fn pairs_or_none(pairs: Option<Vec<(String, String)>>) -> (r: Vec<(String, String)>)
    ensures
        match pairs {
            Some(p) => r == p,
            None => r@.len() == 0,
        },
{
    match pairs {
        Some(p) => p,
        None => Vec::new(),
    }
}

/// Reads request headers from a list like `[["name","value"],...]`. A blank text, or
/// one that is no such list, gives none.
pub fn parse_headers(json: &str) -> (r: Vec<(String, String)>)
    ensures
        if text::trimmed(json@).len() == 0 || json_pairs(json@) is None {
            r@.len() == 0
        } else {
            json_pairs(json@) == Some(pair_texts(r@))
        },
{
    if trimmed_chars(json).len() == 0 {
        return Vec::new();
    }
    pairs_or_none(read_pairs(json))
}

/// The task that a caller asks for: without a digest if its text is empty.
pub fn requested_task(
    url: String,
    dest: DestPath,
    sha256_hex: &str,
    headers: Vec<(String, String)>,
) -> (t: DownloadTask)
    ensures
        t.url == url,
        t.dest == dest,
        t.headers@ == headers@,
        t.mirror_urls@.len() == 0,
        t.max_segments is None,
        t.max_retries is None,
        t.segment_size is None,
        t.id == 0,
        match t.sha256 {
            Some(d) => sha256_hex@.len() > 0 && hex::parsed_digest(sha256_hex@) == Some(d@),
            None => sha256_hex@.len() == 0 || hex::parsed_digest(sha256_hex@) is None,
        },
{
    let mut task: DownloadTask = DownloadTask::new(url, dest);
    if !sha256_hex.is_empty() {
        task = task.with_sha256_hex(sha256_hex);
    }
    let n: usize = headers.len();
    let mut i: usize = 0;
    while i < n
        invariant
            n == headers@.len(),
            0 <= i <= n,
            task.headers@ == headers@.take(i as int),
            task.url == url,
            task.dest == dest,
            task.mirror_urls@.len() == 0,
            task.max_segments is None,
            task.max_retries is None,
            task.segment_size is None,
            task.id == 0,
            match task.sha256 {
                Some(d) => sha256_hex@.len() > 0 && hex::parsed_digest(sha256_hex@) == Some(d@),
                None => sha256_hex@.len() == 0 || hex::parsed_digest(sha256_hex@) is None,
            },
        decreases n - i,
    {
        task = task.with_header(headers[i].0.clone(), headers[i].1.clone());
        i = i + 1;
        assert(task.headers@ =~= headers@.take(i as int));
    }
    assert(headers@.take(n as int) =~= headers@);
    task
}

/// The answer to a request for a download that was taken.
pub fn added_json(id: TaskId) -> (s: String)
    ensures
        s@ == "{\"id\":"@ + text::decimal(id as nat) + "}"@,
{
    "{\"id\":".to_owned().concat(decimal_text(id).as_str()).concat("}")
}

/// A task as a JSON object, its members in the order of their names.
pub open spec fn task_object(id: u64, state: TaskState, p: DownloadProgress) -> Seq<char> {
    "{\"activeSegments\":"@ + text::decimal(p.active_segments as nat) + ",\"downloaded\":"@
        + text::decimal(p.downloaded as nat) + ",\"id\":"@ + text::decimal(id as nat)
        + ",\"status\":\""@ + state_text(state) + "\",\"total\":"@ + text::decimal(p.total as nat)
        + "}"@
}

/// Task `id` of the manager as a JSON object. A task that does not exist is told as
/// failed, with no progress.
pub open spec fn task_told(v: manager::ManagerView, id: u64) -> Seq<char> {
    if v.tasks.contains_key(id) {
        task_object(id, v.tasks[id].state, v.tasks[id].progress)
    } else {
        task_object(
            id,
            TaskState::Failed,
            DownloadProgress { downloaded: 0, total: 0, active_segments: 0 },
        )
    }
}

/// Tells of task `id`.
pub fn task_json(m: &DownloadManager, id: TaskId) -> (s: String)
    requires
        m.wf(),
    ensures
        s@ == task_told(m@, id),
{
    let state: TaskState = match m.state(id) {
        Ok(s) => s,
        Err(_) => TaskState::Failed,
    };
    let p: DownloadProgress = match m.progress(id) {
        Ok(p) => p,
        Err(_) => DownloadProgress { downloaded: 0, total: 0, active_segments: 0 },
    };
    "{\"activeSegments\":".to_owned().concat(decimal_text(p.active_segments as u64).as_str()).concat(
        ",\"downloaded\":",
    ).concat(decimal_text(p.downloaded).as_str()).concat(",\"id\":").concat(
        decimal_text(id).as_str(),
    ).concat(",\"status\":\"").concat(state_name(state)).concat("\",\"total\":").concat(
        decimal_text(p.total).as_str(),
    ).concat("}")
}

/// The tasks `ids` as JSON objects, with commas between them.
pub open spec fn tasks_told(v: manager::ManagerView, ids: Seq<u64>) -> Seq<char>
    decreases ids.len(),
{
    if ids.len() == 0 {
        Seq::empty()
    } else if ids.len() == 1 {
        task_told(v, ids[0])
    } else {
        tasks_told(v, ids.drop_last()) + ","@ + task_told(v, ids.last())
    }
}

/// Tells of all tasks, in the order of their ids.
pub fn list_json(m: &DownloadManager) -> (s: String)
    requires
        m.wf(),
    ensures
        exists|ids: Seq<u64>|
            keys::lists_keys_u64(ids, m@.tasks) && s@ == "["@ + #[trigger] tasks_told(m@, ids)
                + "]"@,
{
    let list: Vec<(TaskId, TaskState)> = m.list();
    let ghost ids = list@.map_values(|p: (TaskId, TaskState)| p.0);
    let n: usize = list.len();
    let mut out: String = String::new();
    let mut i: usize = 0;
    assert(out@ =~= tasks_told(m@, ids.take(0)));
    while i < n
        invariant
            m.wf(),
            n == list@.len(),
            0 <= i <= n,
            ids == list@.map_values(|p: (TaskId, TaskState)| p.0),
            out@ == tasks_told(m@, ids.take(i as int)),
        decreases n - i,
    {
        let id: u64 = list[i].0;
        let told: String = task_json(m, id);
        proof {
            let next = ids.take(i + 1);
            assert(next.drop_last() =~= ids.take(i as int));
            assert(next.last() == id);
            if i == 0 {
                assert(out@ + told@ =~= told@);
            }
        }
        if i > 0 {
            out = out.concat(",");
        }
        out = out.concat(told.as_str());
        i = i + 1;
    }
    proof {
        assert(ids.take(n as int) =~= ids);
        lemma_listed(m@, list@);
    }
    "[".to_owned().concat(out.as_str()).concat("]")
}

/// The ids of a list of all tasks are the keys of the table.
proof fn lemma_listed(v: manager::ManagerView, list: Seq<(u64, TaskState)>)
    requires
        list.len() == v.tasks.dom().len(),
        forall|i: int| 0 <= i < list.len() ==> v.is_in((#[trigger] list[i]).0, list[i].1),
        forall|i: int, j: int|
            0 <= i < j < list.len() ==> (#[trigger] list[i]).0 < (#[trigger] list[j]).0,
        forall|id: u64| #[trigger]
            v.tasks.contains_key(id) ==> exists|i: int|
                0 <= i < list.len() && (#[trigger] list[i]).0 == id,
    ensures
        keys::lists_keys_u64(list.map_values(|p: (TaskId, TaskState)| p.0), v.tasks),
{
    let ids = list.map_values(|p: (TaskId, TaskState)| p.0);
    assert forall|id: u64| ids.to_set().contains(id) <==> v.tasks.dom().contains(id) by {
        if ids.to_set().contains(id) {
            let i = choose|i: int| 0 <= i < ids.len() && ids[i] == id;
            assert(v.is_in(list[i].0, list[i].1));
        }
        if v.tasks.contains_key(id) {
            let i = choose|i: int| 0 <= i < list.len() && (#[trigger] list[i]).0 == id;
            assert(ids[i] == id);
            assert(ids.contains(id));
        }
    }
    assert(ids.to_set() =~= v.tasks.dom());
    assert forall|i: int, j: int| 0 <= i < j < ids.len() implies ids[i] < ids[j] by {
        assert(list[i].0 < list[j].0);
    }
}

/// Tells how an operation went.
pub fn op_result(result: &Result<(), DownloadError>) -> (s: String)
    ensures
        s@ == (match *result {
            Ok(_) => "{\"ok\":true}"@,
            Err(e) => "{\"error\":"@ + json_text(e.text()) + ",\"ok\":false}"@,
        }),
{
    match result {
        Ok(_) => "{\"ok\":true}".to_owned(),
        Err(e) => failed_json(json_string(e.message().as_str()).as_str()),
    }
}

/// Tells that an operation failed; `error` is the JSON string that says how.
pub fn failed_json(error: &str) -> (s: String)
    ensures
        s@ == "{\"error\":"@ + error@ + ",\"ok\":false}"@,
{
    "{\"error\":".to_owned().concat(error).concat(",\"ok\":false}")
}

/// The name of a state is, in lower case, the name that it has in messages.
pub proof fn law_names_of_states_agree(s: TaskState)
    ensures
        state_text(s) == headers::lowered(manager::state_label(s)),
{
    reveal_strlit("Queued");
    reveal_strlit("Downloading");
    reveal_strlit("Paused");
    reveal_strlit("Completed");
    reveal_strlit("Failed");
    reveal_strlit("Cancelled");
    reveal_strlit("queued");
    reveal_strlit("downloading");
    reveal_strlit("paused");
    reveal_strlit("completed");
    reveal_strlit("failed");
    reveal_strlit("cancelled");
    assert(state_text(s) =~= headers::lowered(manager::state_label(s)));
}

/// A task that does not exist is told like one that has failed with nothing downloaded.
pub proof fn law_unknown_tasks_are_told_as_failed(
    v: manager::ManagerView,
    w: manager::ManagerView,
    id: u64,
)
    requires
        !v.tasks.contains_key(id),
        w.is_in(id, TaskState::Failed),
        w.tasks[id].progress.downloaded == 0,
        w.tasks[id].progress.total == 0,
        w.tasks[id].progress.active_segments == 0,
    ensures
        task_told(v, id) == task_told(w, id),
{
}

/// What is told of a task holds its state and its numbers, each under its name.
pub proof fn law_task_is_told(v: manager::ManagerView, id: u64)
    requires
        v.tasks.contains_key(id),
    ensures
        ({
            let p = v.tasks[id].progress;
            task_told(v, id) == "{\"activeSegments\":"@ + text::decimal(p.active_segments as nat)
                + ",\"downloaded\":"@ + text::decimal(p.downloaded as nat) + ",\"id\":"@
                + text::decimal(id as nat) + ",\"status\":\""@ + headers::lowered(
                manager::state_label(v.tasks[id].state),
            ) + "\",\"total\":"@ + text::decimal(p.total as nat) + "}"@
        }),
{
    law_names_of_states_agree(v.tasks[id].state);
}

/// A list tells of its tasks one after the other, with a comma between any two.
pub proof fn law_lists_are_joined(v: manager::ManagerView, a: Seq<u64>, b: Seq<u64>, id: u64)
    requires
        a.len() > 0,
        b.len() > 0,
    ensures
        tasks_told(v, a + b) == tasks_told(v, a) + ","@ + tasks_told(v, b),
        tasks_told(v, seq![id]) == task_told(v, id),
        tasks_told(v, Seq::empty()) == Seq::<char>::empty(),
    decreases b.len(),
{
    let all = a + b;
    assert(all.drop_last() =~= a + b.drop_last());
    assert(all.last() == b.last());
    if b.len() == 1 {
        assert(a + b.drop_last() =~= a);
    } else {
        law_lists_are_joined(v, a, b.drop_last(), id);
        assert(tasks_told(v, all) =~= tasks_told(v, a) + ","@ + tasks_told(v, b));
    }
}

} // verus!
