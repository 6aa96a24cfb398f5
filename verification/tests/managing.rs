use qomicex_downloader::error::DownloadError;
use qomicex_downloader::manager::{DownloadManager, DownloadProgress};
use qomicex_downloader::plan::ProbeResult;
use qomicex_downloader::ranged::RangedRun;
use qomicex_downloader::task::{
    DestPath, DownloadEvent, DownloadOptions, DownloadTask, LogLevel, TaskState,
};

fn dest(name: &str) -> DestPath {
    DestPath { dir: "downloads".to_string(), file_name: Some(name.to_string()) }
}

fn task(name: &str) -> DownloadTask {
    DownloadTask::new(format!("http://host.example/{name}"), dest(name))
}

fn changed(id: u64, state: TaskState) -> DownloadEvent {
    DownloadEvent::StateChanged { id, state, detail: None }
}

fn manager(max: usize) -> DownloadManager {
    DownloadManager::new(DownloadOptions::default(), max)
}

#[test]
fn tasks_are_numbered_and_announced() {
    let mut m = manager(4);
    assert_eq!(m.add(task("a")), 1);
    assert_eq!(m.add(task("b")), 2);
    assert_eq!(m.state(1), Ok(TaskState::Queued));
    assert_eq!(m.state(3), Err(DownloadError::TaskNotFound(3)));
    assert_eq!(
        m.take_events(),
        vec![changed(1, TaskState::Queued), changed(2, TaskState::Queued)]
    );
    assert!(m.take_events().is_empty());
    assert_eq!(m.list(), vec![(1, TaskState::Queued), (2, TaskState::Queued)]);
}

#[test]
fn no_more_tasks_run_than_may() {
    let mut m = manager(2);
    let a = m.add(task("a"));
    let b = m.add(task("b"));
    let c = m.add(task("c"));
    m.take_events();
    assert_eq!(m.dispatch(), vec![a, b]);
    assert_eq!(m.dispatch(), Vec::<u64>::new());
    assert_eq!(
        m.take_events(),
        vec![changed(a, TaskState::Downloading), changed(b, TaskState::Downloading)]
    );
    assert_eq!(m.state(c), Ok(TaskState::Queued));
    let mut done = task("a");
    done.id = a;
    m.finish(&done, Ok(()));
    assert_eq!(m.state(a), Ok(TaskState::Completed));
    assert_eq!(m.take_events(), vec![changed(a, TaskState::Completed)]);
    assert_eq!(m.dispatch(), vec![c]);
}

#[test]
fn there_is_always_one_worker() {
    let mut m = manager(0);
    let a = m.add(task("a"));
    m.add(task("b"));
    assert_eq!(m.dispatch(), vec![a]);
}

#[test]
fn failures_are_told_with_their_text() {
    let mut m = manager(1);
    let a = m.add(task("a"));
    m.dispatch();
    m.take_events();
    let mut t = task("a");
    t.id = a;
    m.finish(&t, Err(DownloadError::Incomplete { expected: 3, actual: 2 }));
    assert_eq!(m.state(a), Ok(TaskState::Failed));
    assert_eq!(
        m.take_events(),
        vec![DownloadEvent::StateChanged {
            id: a,
            state: TaskState::Failed,
            detail: Some("下载数据不完整: 期望 3 字节, 实际 2 字节".to_string()),
        }]
    );
}

#[test]
fn failures_forget_what_the_host_said() {
    let mut m = manager(1);
    let a = m.add(task("a"));
    let b = m.add(task("b"));
    m.dispatch();
    m.remember_host("http://host.example/x", &ProbeResult { total: None, range_ok: true });
    m.remember_host("http://other.example/", &ProbeResult { total: None, range_ok: false });
    let mut t = task("a");
    t.id = a;
    m.finish(&t, Ok(()));
    assert_eq!(m.host_known("http://host.example/y"), Some(true));
    m.dispatch();
    let mut t = task("b");
    t.id = b;
    m.finish(&t, Err(DownloadError::Exhausted("x".to_string())));
    assert_eq!(m.host_known("http://host.example/y"), None);
    assert_eq!(m.host_known("http://other.example/y"), Some(false));
}

#[test]
fn pausing_and_resuming() {
    let mut m = manager(1);
    let a = m.add(task("a"));
    let b = m.add(task("b"));
    m.dispatch();
    m.count_bytes(a, 77);
    assert_eq!(m.pause(b), Ok(false));
    assert_eq!(m.pause(a), Ok(true));
    let mut t = task("a");
    t.id = a;
    m.finish(&t, Err(DownloadError::Cancelled));
    assert_eq!(m.state(a), Ok(TaskState::Paused));
    assert_eq!(m.dispatch(), Vec::<u64>::new());
    m.take_events();
    assert_eq!(m.resume(a), Ok(()));
    assert_eq!(m.resume(b), Ok(()));
    assert_eq!(
        m.take_events(),
        vec![changed(a, TaskState::Queued), changed(b, TaskState::Queued)]
    );
    assert_eq!(m.state(a), Ok(TaskState::Queued));
    assert_eq!(m.progress(a).unwrap().downloaded, 77);
    assert_eq!(m.dispatch(), vec![a]);
    assert_eq!(
        m.resume(a),
        Err(DownloadError::Other("任务状态为 Downloading，不可恢复".to_string()))
    );
    assert_eq!(m.take_events(), vec![changed(a, TaskState::Downloading)]);
    assert_eq!(m.pause(9), Err(DownloadError::TaskNotFound(9)));
    assert_eq!(m.resume(9), Err(DownloadError::TaskNotFound(9)));
}

#[test]
fn finished_tasks_cannot_be_paused() {
    let mut m = manager(1);
    let a = m.add(task("a"));
    m.dispatch();
    let mut t = task("a");
    t.id = a;
    m.finish(&t, Ok(()));
    assert_eq!(
        m.pause(a),
        Err(DownloadError::Other("任务已终结（Completed），无法暂停".to_string()))
    );
    assert_eq!(m.cancel(a).is_ok(), true);
    assert_eq!(
        m.pause(a),
        Err(DownloadError::Other("任务已终结（Cancelled），无法暂停".to_string()))
    );
}

#[test]
fn retrying_by_state() {
    let mut m = manager(1);
    let a = m.add(task("a"));
    let busy = Err(DownloadError::Other("任务进行中，无法重试".to_string()));
    assert_eq!(m.retry(a), busy);
    m.dispatch();
    assert_eq!(m.retry(a), busy);
    let mut t = task("a");
    t.id = a;
    m.finish(&t, Err(DownloadError::Exhausted("x".to_string())));
    m.take_events();
    assert_eq!(m.retry(a), Ok(()));
    assert_eq!(m.take_events(), vec![changed(a, TaskState::Queued)]);
    assert_eq!(m.state(a), Ok(TaskState::Queued));
    assert_eq!(m.dispatch(), vec![a]);
    m.finish(&t, Ok(()));
    assert_eq!(
        m.retry(a),
        Err(DownloadError::Other("任务已完成，无需重试".to_string()))
    );
    let b = m.add(task("b"));
    assert_eq!(m.pause(b), Ok(false));
    assert_eq!(
        m.retry(b),
        Err(DownloadError::Other("任务已暂停，请用 resume".to_string()))
    );
    assert!(m.cancel(b).is_ok());
    assert_eq!(m.retry(b), Ok(()));
    assert_eq!(m.retry(9), Err(DownloadError::TaskNotFound(9)));
}

#[test]
fn cancelling_names_the_partial_file() {
    let mut m = manager(1);
    let a = m.add(task("a"));
    assert_eq!(m.cancel(a), Ok(dest("a.part")));
    assert_eq!(m.state(a), Ok(TaskState::Cancelled));
    assert_eq!(m.dispatch(), Vec::<u64>::new());
    assert_eq!(m.cancel(7), Err(DownloadError::TaskNotFound(7)));
}

#[test]
fn removing_forgets_and_ids_are_not_reused() {
    let mut m = manager(1);
    let a = m.add(task("a"));
    assert_eq!(m.remove(a), Ok(dest("a.part")));
    assert_eq!(m.state(a), Err(DownloadError::TaskNotFound(a)));
    assert_eq!(m.remove(a), Err(DownloadError::TaskNotFound(a)));
    assert!(m.list().is_empty());
    assert_eq!(m.add(task("b")), a + 1);
}

#[test]
fn a_worker_of_a_removed_task_frees_its_place() {
    let mut m = manager(1);
    let a = m.add(task("a"));
    m.dispatch();
    m.take_events();
    assert!(m.remove(a).is_ok());
    let b = m.add(task("b"));
    assert_eq!(m.dispatch(), Vec::<u64>::new());
    let mut t = task("a");
    t.id = a;
    m.finish(&t, Err(DownloadError::Cancelled));
    assert_eq!(m.dispatch(), vec![b]);
    let events = m.take_events();
    assert!(events.contains(&changed(a, TaskState::Cancelled)));
}

#[test]
fn shutting_down_begins_nothing_more() {
    let mut m = manager(1);
    let a = m.add(task("a"));
    let b = m.add(task("b"));
    assert_eq!(m.shutdown(), vec![a, b]);
    assert_eq!(m.dispatch(), Vec::<u64>::new());
}

#[test]
fn progress_adds_up() {
    let mut m = manager(2);
    let a = m.add(task("a"));
    let b = m.add(task("b"));
    m.dispatch();
    m.count_bytes(a, 10);
    m.count_bytes(a, 5);
    m.set_total(a, 100);
    m.set_active_segments(a, 3);
    m.count_bytes(b, 1);
    m.set_total(b, 50);
    m.count_bytes(99, 1);
    m.set_total(99, 1);
    m.set_active_segments(99, 1);
    assert_eq!(
        m.progress(a),
        Ok(DownloadProgress { downloaded: 15, total: 100, active_segments: 3 })
    );
    assert_eq!(m.progress(99), Err(DownloadError::TaskNotFound(99)));
    assert_eq!(
        m.global_progress(),
        Some(DownloadEvent::GlobalProgress { active_tasks: 2, downloaded: 16, total: 150 })
    );
    m.set_total(b, u64::MAX);
    assert_eq!(m.global_progress(), None);
}

#[test]
fn announcements_are_queued() {
    let mut m = manager(1);
    m.announce(5, TaskState::Paused);
    assert_eq!(m.take_events(), vec![changed(5, TaskState::Paused)]);
    assert_ne!(LogLevel::Warn, LogLevel::Error);
}

#[test]
fn what_is_put_by_waits_for_the_next_run() {
    let mut m = manager(1);
    let a = m.add(task("a"));
    m.dispatch();
    assert!(m.take_up(a).is_none());
    let mut run = RangedRun::new(30, 10, 3, 0);
    let segs = run.start_pending();
    run.record(&segs[2], 4);
    assert_eq!(m.pause(a), Ok(true));
    m.put_by(a, run);
    let mut t = task("a");
    t.id = a;
    m.finish(&t, Err(DownloadError::Cancelled));
    assert_eq!(m.resume(a), Ok(()));
    assert_eq!(m.dispatch(), vec![a]);
    let run = m.take_up(a).unwrap();
    assert_eq!(run.active_count(), 0);
    assert_eq!(run.current(&segs[2]).unwrap().downloaded, 4);
    assert!(m.take_up(a).is_none());
    m.put_by(a, run);
    assert!(m.cancel(a).is_ok());
    assert!(m.take_up(a).is_none());
    m.put_by(a, RangedRun::new(30, 10, 3, 0));
    assert!(m.take_up(a).is_none());
    m.put_by(99, RangedRun::new(30, 10, 3, 0));
    assert!(m.take_up(99).is_none());
}

#[test]
fn bytes_are_taken_back() {
    let mut m = manager(1);
    let a = m.add(task("a"));
    m.count_bytes(a, 10);
    m.take_back_bytes(a, 4);
    assert_eq!(m.progress(a).unwrap().downloaded, 6);
    m.take_back_bytes(99, 4);
    assert_eq!(m.progress(a).unwrap().downloaded, 6);
}

#[test]
fn segments_are_reported_as_they_run() {
    let mut m = manager(1);
    let a = m.add(task("a"));
    let mut run = RangedRun::new(100, 10, 3, 10);
    m.report_segments(a, &run);
    assert_eq!(m.progress(a).unwrap().active_segments, 0);
    run.start_pending();
    m.report_segments(a, &run);
    assert_eq!(m.progress(a).unwrap().active_segments, 3);
    m.report_segments(99, &run);
    m.count_bytes(a, 9);
    m.set_downloaded(a, 4);
    m.set_downloaded(99, 4);
    assert_eq!(m.progress(a).unwrap().downloaded, 4);
    assert!(m.has_ids_left());
}
