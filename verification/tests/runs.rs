use qomicex_downloader::digest::Publish;
use qomicex_downloader::error::DownloadError;
use qomicex_downloader::plan::ProbeResult;
use qomicex_downloader::retry::{SegmentAction, StreamAction};
use qomicex_downloader::run::{DownloadRun, RangedEnd, RunEvent, Stage};
use qomicex_downloader::transfer::SegError;

const THRESHOLD: u64 = 10;

fn run_of(urls: &[&str], sha256: Option<[u8; 32]>) -> DownloadRun {
    DownloadRun::new(urls.iter().map(|u| u.to_string()).collect(), sha256, THRESHOLD)
}

fn go(run: &mut DownloadRun, event: RunEvent) -> Option<String> {
    run.advance(event, "p", "d")
}

fn probed(total: u64, range_ok: bool) -> RunEvent {
    RunEvent::Probed(Ok(ProbeResult { total: Some(total), range_ok }))
}

fn publish(run: &mut DownloadRun) {
    assert_eq!(*run.stage(), Stage::Move(Publish::Open));
    go(run, RunEvent::Moved(Ok(())));
    assert_eq!(*run.stage(), Stage::Move(Publish::Sync));
    go(run, RunEvent::Moved(Ok(())));
    assert_eq!(*run.stage(), Stage::Move(Publish::Rename));
    go(run, RunEvent::Moved(Ok(())));
}

#[test]
fn a_file_in_segments_is_measured_checked_and_moved() {
    let mut run = run_of(&["u"], Some([7; 32]));
    assert_eq!(*run.stage(), Stage::Start);
    go(&mut run, RunEvent::HostKnown(None));
    assert_eq!(*run.stage(), Stage::Probe);
    go(&mut run, probed(100, true));
    assert_eq!(*run.stage(), Stage::Ranged { total: 100 });
    go(&mut run, RunEvent::RangedEnded(RangedEnd::Finished));
    assert_eq!(*run.stage(), Stage::Measure { total: 100 });
    go(&mut run, RunEvent::Measured(Ok(100)));
    assert_eq!(*run.stage(), Stage::Hash);
    go(&mut run, RunEvent::Hashed(Ok([7; 32])));
    publish(&mut run);
    assert_eq!(*run.stage(), Stage::Ended(Ok(())));
}

#[test]
fn a_stream_without_digest_is_moved_at_once() {
    let mut run = run_of(&["u"], None);
    go(&mut run, RunEvent::HostKnown(None));
    go(&mut run, probed(100, false));
    assert_eq!(*run.stage(), Stage::Streamed { total: 100 });
    go(&mut run, RunEvent::StreamEnded(Ok(())));
    publish(&mut run);
    assert_eq!(*run.stage(), Stage::Ended(Ok(())));
}

#[test]
fn segments_fall_back_to_one_stream() {
    let mut run = run_of(&["u"], None);
    go(&mut run, RunEvent::HostKnown(None));
    go(&mut run, probed(100, true));
    go(&mut run, RunEvent::RangedEnded(RangedEnd::Fallback));
    assert_eq!(*run.stage(), Stage::Streamed { total: 100 });
    go(&mut run, RunEvent::StreamEnded(Err(DownloadError::Cancelled)));
    assert_eq!(*run.stage(), Stage::Ended(Err(DownloadError::Cancelled)));
}

#[test]
fn a_stopped_run_ends() {
    let mut run = run_of(&["u"], None);
    go(&mut run, RunEvent::HostKnown(None));
    go(&mut run, probed(100, true));
    assert_eq!(run.outcome(), None);
    go(&mut run, RunEvent::RangedEnded(RangedEnd::Stopped(DownloadError::Cancelled)));
    assert_eq!(*run.stage(), Stage::Ended(Err(DownloadError::Cancelled)));
    assert_eq!(run.outcome(), Some(Err(DownloadError::Cancelled)));
}

#[test]
fn known_hosts_are_only_asked_for_the_size() {
    let mut run = run_of(&["u"], None);
    go(&mut run, RunEvent::HostKnown(Some(true)));
    assert_eq!(*run.stage(), Stage::Size);
    go(&mut run, RunEvent::Sized(Some(THRESHOLD + 1)));
    assert_eq!(*run.stage(), Stage::Ranged { total: THRESHOLD + 1 });
    let mut run = run_of(&["u"], None);
    go(&mut run, RunEvent::HostKnown(Some(true)));
    go(&mut run, RunEvent::Sized(Some(THRESHOLD)));
    assert_eq!(*run.stage(), Stage::Streamed { total: THRESHOLD });
    let mut run = run_of(&["u"], None);
    go(&mut run, RunEvent::HostKnown(Some(true)));
    go(&mut run, RunEvent::Sized(None));
    assert_eq!(*run.stage(), Stage::Streamed { total: 0 });
    let mut run = run_of(&["u"], None);
    go(&mut run, RunEvent::HostKnown(Some(false)));
    assert_eq!(*run.stage(), Stage::Streamed { total: 0 });
}

#[test]
fn what_begins_later_begins_with_the_mirror() {
    let mut run = run_of(&["a", "b"], None);
    let mut first = run.begin_attempts(0);
    let mut second = run.begin_attempts(0);
    let bad = || Err(SegError::Retryable("why".to_string()));
    assert!(matches!(
        run.after_segment_attempt(&mut first, 1, bad()),
        SegmentAction::Switch { .. }
    ));
    assert!(matches!(
        run.after_segment_attempt(&mut second, 2, bad()),
        SegmentAction::Switch { .. }
    ));
    assert_eq!((first.url(), second.url()), ("b".to_string(), "b".to_string()));
    assert_eq!(run.current_url(), "b");
    assert_eq!(
        run.after_segment_attempt(&mut first, 1, bad()),
        SegmentAction::Exhausted("why".to_string())
    );
    let mut stream = run.begin_attempts(0);
    assert_eq!(stream.url(), "b");
    let error = || DownloadError::Http("x".to_string());
    assert!(matches!(
        run.after_stream_attempt(&mut stream, Err(error())),
        StreamAction::Switch { .. }
    ));
    assert_eq!(
        run.after_stream_attempt(&mut stream, Err(error())),
        StreamAction::Fail(error())
    );
}

#[test]
fn mirrors_are_asked_in_turn() {
    let mut run = run_of(&["a", "b"], None);
    go(&mut run, RunEvent::HostKnown(None));
    let bad = || DownloadError::HttpStatus { status: 404, url: "a".to_string() };
    go(&mut run, RunEvent::Probed(Err(bad())));
    assert_eq!(*run.stage(), Stage::Probe);
    assert_eq!(run.current_url(), "b");
    go(&mut run, RunEvent::Probed(Err(bad())));
    assert_eq!(*run.stage(), Stage::Ended(Err(bad())));
    assert_eq!(run.current_url(), "a");
}

#[test]
fn a_short_file_is_incomplete() {
    let mut run = run_of(&["u"], None);
    go(&mut run, RunEvent::HostKnown(None));
    go(&mut run, probed(100, true));
    go(&mut run, RunEvent::RangedEnded(RangedEnd::Finished));
    go(&mut run, RunEvent::Measured(Ok(99)));
    assert_eq!(
        *run.stage(),
        Stage::Ended(Err(DownloadError::Incomplete { expected: 100, actual: 99 }))
    );
}

#[test]
fn files_that_cannot_be_read_end_the_run() {
    let mut run = run_of(&["u"], Some([1; 32]));
    go(&mut run, RunEvent::HostKnown(None));
    go(&mut run, probed(100, true));
    go(&mut run, RunEvent::RangedEnded(RangedEnd::Finished));
    go(&mut run, RunEvent::Measured(Err("gone".to_string())));
    assert_eq!(*run.stage(), Stage::Ended(Err(DownloadError::Io("gone".to_string()))));
    let mut run = run_of(&["u"], Some([1; 32]));
    go(&mut run, RunEvent::HostKnown(None));
    go(&mut run, probed(100, false));
    go(&mut run, RunEvent::StreamEnded(Ok(())));
    go(&mut run, RunEvent::Hashed(Err("gone".to_string())));
    assert_eq!(*run.stage(), Stage::Ended(Err(DownloadError::Io("gone".to_string()))));
}

#[test]
fn a_wrong_file_is_discarded_and_fetched_once_more() {
    let mut run = run_of(&["u"], Some([1; 32]));
    go(&mut run, RunEvent::HostKnown(None));
    go(&mut run, probed(100, false));
    go(&mut run, RunEvent::StreamEnded(Ok(())));
    assert_eq!(
        go(&mut run, RunEvent::Hashed(Ok([2; 32]))),
        Some("SHA-256 校验失败，删除 .part 自动重下".to_string())
    );
    assert_eq!(*run.stage(), Stage::DiscardAndRepeat);
    go(&mut run, RunEvent::Discarded);
    assert_eq!(*run.stage(), Stage::Start);
    go(&mut run, RunEvent::HostKnown(None));
    go(&mut run, probed(100, false));
    go(&mut run, RunEvent::StreamEnded(Ok(())));
    assert_eq!(go(&mut run, RunEvent::Hashed(Ok([2; 32]))), None);
    let error = || DownloadError::ChecksumMismatch {
        expected: "01".repeat(32),
        actual: "02".repeat(32),
    };
    assert_eq!(*run.stage(), Stage::DiscardAndEnd(error()));
    go(&mut run, RunEvent::Discarded);
    assert_eq!(*run.stage(), Stage::Ended(Err(error())));
}

#[test]
fn a_file_that_cannot_be_moved_ends_the_run() {
    let mut run = run_of(&["u"], None);
    go(&mut run, RunEvent::HostKnown(None));
    go(&mut run, probed(0, true));
    assert_eq!(*run.stage(), Stage::Streamed { total: 0 });
    go(&mut run, RunEvent::StreamEnded(Ok(())));
    go(&mut run, RunEvent::Moved(Ok(())));
    go(&mut run, RunEvent::Moved(Ok(())));
    go(&mut run, RunEvent::Moved(Err("busy".to_string())));
    assert_eq!(*run.stage(), Stage::Move(Publish::ClearDest("busy".to_string())));
    go(&mut run, RunEvent::Moved(Ok(())));
    go(&mut run, RunEvent::Moved(Err("still".to_string())));
    assert_eq!(
        *run.stage(),
        Stage::Ended(Err(DownloadError::Other("rename p -> d 失败: busy / still".to_string())))
    );
}

#[test]
fn events_that_are_not_waited_for_change_nothing() {
    let mut run = run_of(&["u"], None);
    go(&mut run, RunEvent::Discarded);
    go(&mut run, RunEvent::StreamEnded(Ok(())));
    assert_eq!(*run.stage(), Stage::Start);
    go(&mut run, RunEvent::HostKnown(None));
    go(&mut run, RunEvent::HostKnown(Some(true)));
    assert_eq!(*run.stage(), Stage::Probe);
}
