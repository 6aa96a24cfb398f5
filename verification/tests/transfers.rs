use qomicex_downloader::error::DownloadError;
use qomicex_downloader::retry::{
    backoff, backoff_fits, backoff_with, segment_exhausted_message, Retries, RetryStep,
    SegmentAction, StreamAction, UrlRing, MAX_JITTER_MS,
};
use qomicex_downloader::segment::Segment;
use qomicex_downloader::task::TimeSpan;
use qomicex_downloader::transfer::{
    answer_error, check_length, range_header, AnswerVerdict, SegError, SegmentTransfer,
    StreamTransfer, Tick, TransferEvent, Watchdog,
};

fn ring(urls: &[&str]) -> UrlRing {
    UrlRing::new(urls.iter().map(|u| u.to_string()).collect())
}

#[test]
fn request_covers_what_is_missing() {
    let mut s = Segment::new(0, 100, 199);
    assert_eq!(s.next_request(), Some((100, 199)));
    s.record(40);
    assert_eq!(s.next_request(), Some((140, 199)));
    s.record(60);
    assert_eq!(s.next_request(), None);
    assert_eq!(range_header(140, 199), "bytes=140-199");
}

#[test]
fn answers_are_judged() {
    let whole = Segment::new(0, 0, 99);
    assert_eq!(whole.judge_answer(206, 100), AnswerVerdict::Usable);
    assert_eq!(whole.judge_answer(200, 100), AnswerVerdict::Usable);
    assert_eq!(whole.judge_answer(200, 101), AnswerVerdict::RangeIgnored);
    assert_eq!(whole.judge_answer(404, 100), AnswerVerdict::BadStatus);
    let mut begun = whole;
    begun.record(1);
    assert_eq!(begun.judge_answer(200, 100), AnswerVerdict::RangeIgnored);
    assert_eq!(
        Segment::new(1, 100, 199).judge_answer(200, 200),
        AnswerVerdict::RangeIgnored
    );
}

#[test]
fn answer_errors_have_their_texts() {
    assert_eq!(answer_error(AnswerVerdict::Usable, "", ""), Ok(()));
    assert_eq!(
        answer_error(AnswerVerdict::RangeIgnored, "200 OK", "u"),
        Err(SegError::Retryable("服务器忽略 Range 请求".to_string()))
    );
    assert_eq!(
        answer_error(AnswerVerdict::BadStatus, "404 Not Found", "http://a/b"),
        Err(SegError::Retryable("HTTP 404 Not Found (http://a/b)".to_string()))
    );
}

fn transfer(len: u64) -> SegmentTransfer {
    SegmentTransfer::new(Segment::new(0, 0, len - 1), TimeSpan::from_secs(30), 3)
}

#[test]
fn a_segment_attempt_succeeds_with_its_last_byte() {
    let mut t = transfer(10);
    assert_eq!(t.on_event(TransferEvent::Chunk(4)), None);
    assert_eq!(
        t.on_event(TransferEvent::EndOfStream),
        Some(Err(SegError::Retryable("流提前结束: 已收 4 / 期望 10".to_string())))
    );
    assert_eq!(t.on_event(TransferEvent::Chunk(6)), None);
    assert_eq!(t.on_event(TransferEvent::EndOfStream), Some(Ok(())));
}

#[test]
fn an_answer_that_is_too_long_does_not_count() {
    let mut t = transfer(10);
    assert_eq!(t.on_event(TransferEvent::Chunk(4)), None);
    let too_long = Some(Err(SegError::Retryable("流超出范围: 期望 10".to_string())));
    assert_eq!(t.on_event(TransferEvent::Chunk(7)), too_long);
    assert_eq!(t.seg.downloaded, 0);
    assert_eq!(t.on_event(TransferEvent::Chunk(10)), None);
    assert_eq!(t.on_event(TransferEvent::Chunk(1)), too_long);
    assert_eq!(t.seg.next_request(), Some((0, 9)));
    assert!(matches!(t.on_event(TransferEvent::EndOfStream), Some(Err(_))));
}

#[test]
fn a_segment_attempt_fails_with_its_reason() {
    let mut t = transfer(10);
    assert_eq!(
        t.on_event(TransferEvent::NetworkError("reset".to_string())),
        Some(Err(SegError::Retryable("网络中断: reset".to_string())))
    );
    assert_eq!(
        t.on_event(TransferEvent::DiskError("full".to_string())),
        Some(Err(SegError::Retryable("full".to_string())))
    );
    assert_eq!(t.on_event(TransferEvent::Cancelled), Some(Err(SegError::Cancelled)));
}

#[test]
fn watchdog_reports_silence() {
    let mut t = transfer(1000);
    t.on_event(TransferEvent::Chunk(100));
    assert_eq!(t.sample(TimeSpan::from_secs(30)), Ok(100));
    assert_eq!(t.sample(TimeSpan::from_secs(1)), Ok(0));
    assert_eq!(
        t.sample(TimeSpan::from_millis(30_001)),
        Err(SegError::Retryable("看门狗: 无数据超过阈值".to_string()))
    );
}

#[test]
fn watchdog_counts_slow_samples_in_a_row() {
    let mut t = transfer(1000);
    assert_eq!(t.judge_speed(true), Ok(()));
    assert_eq!(t.judge_speed(true), Ok(()));
    assert_eq!(t.judge_speed(false), Ok(()));
    assert_eq!(t.judge_speed(true), Ok(()));
    assert_eq!(t.judge_speed(true), Ok(()));
    assert_eq!(
        t.judge_speed(true),
        Err(SegError::Retryable("看门狗: 速度持续低于平滑速度".to_string()))
    );
}

#[test]
fn watchdog_alone() {
    let mut w = Watchdog::new(TimeSpan::from_secs(1), 1, 50);
    assert_eq!(w.tick(TimeSpan::from_secs(0), 40), Tick::Bytes(0));
    assert_eq!(w.tick(TimeSpan::from_secs(0), 45), Tick::Bytes(5));
    assert_eq!(w.tick(TimeSpan::from_secs(2), 99), Tick::Silent);
    assert!(w.judge(true));
}

#[test]
fn a_stream_must_bring_the_whole_file() {
    let mut t = StreamTransfer::new(10, TimeSpan::from_secs(30));
    assert_eq!(t.on_event(TransferEvent::Chunk(9)), None);
    assert_eq!(
        t.on_event(TransferEvent::EndOfStream),
        Some(Err(DownloadError::Incomplete { expected: 10, actual: 9 }))
    );
    t.on_event(TransferEvent::Chunk(1));
    assert_eq!(t.on_event(TransferEvent::EndOfStream), Some(Ok(())));
    let mut unknown = StreamTransfer::new(0, TimeSpan::from_secs(30));
    unknown.on_event(TransferEvent::Chunk(3));
    assert_eq!(unknown.on_event(TransferEvent::EndOfStream), Some(Ok(())));
}

#[test]
fn a_stream_fails_with_its_error() {
    let mut t = StreamTransfer::new(10, TimeSpan::from_secs(30));
    assert_eq!(
        t.on_event(TransferEvent::NetworkError("x".to_string())),
        Some(Err(DownloadError::Http("x".to_string())))
    );
    assert_eq!(
        t.on_event(TransferEvent::DiskError("y".to_string())),
        Some(Err(DownloadError::Io("y".to_string())))
    );
    assert_eq!(t.on_event(TransferEvent::Cancelled), Some(Err(DownloadError::Cancelled)));
    assert_eq!(t.sample(TimeSpan::from_secs(30)), Ok(()));
    assert_eq!(
        t.sample(TimeSpan::from_secs(31)),
        Err(DownloadError::Exhausted("看门狗: 流式下载无数据超过阈值".to_string()))
    );
    assert_eq!(StreamTransfer::judge_answer(206, "u"), Ok(()));
    assert_eq!(
        StreamTransfer::judge_answer(300, "u"),
        Err(DownloadError::HttpStatus { status: 300, url: "u".to_string() })
    );
}

#[test]
fn lengths_are_compared() {
    assert_eq!(check_length(5, 5), Ok(()));
    assert_eq!(
        check_length(5, 6),
        Err(DownloadError::Incomplete { expected: 5, actual: 6 })
    );
}

#[test]
fn mirrors_take_turns() {
    let mut r = ring(&["a", "b", "c"]);
    assert_eq!(r.current_url(), "a");
    assert_eq!(r.mirror_url(), Some("b".to_string()));
    assert_eq!(r.mirror_url(), Some("c".to_string()));
    assert_eq!(r.mirror_url(), Some("a".to_string()));
    assert_eq!(r, ring(&["a", "b", "c"]));
    let mut single = ring(&["a"]);
    assert_eq!(single.mirror_url(), None);
    assert_eq!(single.current_url(), "a");
}

#[test]
fn a_ring_is_turned_to_a_url() {
    let mut r = ring(&["a", "b", "c"]);
    r.turn_to(&"c".to_string());
    assert_eq!(r, ring(&["c", "a", "b"]));
    r.turn_to(&"c".to_string());
    assert_eq!(r, ring(&["c", "a", "b"]));
    r.turn_to(&"x".to_string());
    assert_eq!(r, ring(&["c", "a", "b"]));
}

#[test]
fn a_single_url_is_retried_up_to_the_limit() {
    let r = ring(&["a"]);
    let mut t = Retries::new(&r, 2);
    assert_eq!(t.failed(), RetryStep::Again(1));
    assert_eq!(t.failed(), RetryStep::Again(2));
    assert_eq!(t.failed(), RetryStep::GiveUp);
}

#[test]
fn retries_and_mirrors_run_out() {
    let r = ring(&["a", "b", "c"]);
    let mut t = Retries::new(&r, 1);
    let mut tried = vec![t.url()];
    let mut failures = 0;
    loop {
        failures += 1;
        match t.failed() {
            RetryStep::Again(n) => assert_eq!(n, 1),
            RetryStep::Switch(url) => assert_eq!(url, t.url()),
            RetryStep::GiveUp => break,
        }
        tried.push(t.url());
    }
    assert_eq!(failures, 6);
    assert_eq!(tried, vec!["a", "a", "b", "b", "c", "c"]);
    let mut t = Retries::new(&ring(&["a", "b"]), 0);
    assert_eq!(t.failed(), RetryStep::Switch("b".to_string()));
    assert_eq!(t.failed(), RetryStep::GiveUp);
}

#[test]
fn segment_attempts_are_decided() {
    let mut r = ring(&["a", "b"]);
    let mut t = Retries::new(&r, 1);
    let bad = |why: &str| Err(SegError::Retryable(why.to_string()));
    assert_eq!(t.after_segment_attempt(&mut r, 4, Ok(())), SegmentAction::Complete);
    assert_eq!(
        t.after_segment_attempt(&mut r, 4, Err(SegError::Cancelled)),
        SegmentAction::Interrupted
    );
    assert_eq!(
        t.after_segment_attempt(&mut r, 4, bad("why")),
        SegmentAction::Retry { attempt: 1, message: "段 4 第 1 次重试（why）".to_string() }
    );
    assert_eq!(
        t.after_segment_attempt(&mut r, 4, bad("why")),
        SegmentAction::Switch { message: "段 4 重试耗尽，切换镜像 b".to_string() }
    );
    assert_eq!(r, ring(&["b", "a"]));
    assert!(matches!(
        t.after_segment_attempt(&mut r, 4, bad("why")),
        SegmentAction::Retry { attempt: 1, .. }
    ));
    assert_eq!(
        t.after_segment_attempt(&mut r, 4, bad("last")),
        SegmentAction::Exhausted("last".to_string())
    );
    assert_eq!(segment_exhausted_message(4, "why"), "段 4 重试耗尽: why");
}

#[test]
fn stream_attempts_are_decided() {
    let mut r = ring(&["a", "b"]);
    let mut t = Retries::new(&r, 1);
    let bad = |why: &str| Err(DownloadError::Http(why.to_string()));
    assert_eq!(t.after_stream_attempt(&mut r, Ok(())), StreamAction::Complete);
    assert_eq!(
        t.after_stream_attempt(&mut r, Err(DownloadError::Cancelled)),
        StreamAction::Fail(DownloadError::Cancelled)
    );
    assert_eq!(
        t.after_stream_attempt(&mut r, bad("why")),
        StreamAction::Retry {
            attempt: 1,
            message: "流式下载第 1 次重试（HTTP 请求失败: why）".to_string()
        }
    );
    assert_eq!(
        t.after_stream_attempt(&mut r, bad("why")),
        StreamAction::Switch { message: "流式重试耗尽，切换镜像 b".to_string() }
    );
    t.after_stream_attempt(&mut r, bad("why"));
    assert_eq!(
        t.after_stream_attempt(&mut r, bad("last")),
        StreamAction::Fail(DownloadError::Http("last".to_string()))
    );
}

#[test]
fn pauses_double_up_to_the_sixth() {
    let base = TimeSpan::from_millis(500);
    let millis: Vec<u128> = (0..9).map(|a| backoff_with(&base, a, 7).as_millis()).collect();
    assert_eq!(
        millis,
        vec![507, 1007, 2007, 4007, 8007, 16007, 32007, 32007, 32007]
    );
    assert_eq!(backoff_with(&TimeSpan::from_millis(0), 0, 0).as_millis(), 1);
}

#[test]
fn pauses_have_a_random_part() {
    let base = TimeSpan::from_millis(10);
    let mut seen = Vec::new();
    for _ in 0..200 {
        let d = backoff(&base, 3).as_millis();
        assert!(d >= 80 && d <= 80 + MAX_JITTER_MS as u128);
        if !seen.contains(&d) {
            seen.push(d);
        }
    }
    assert!(seen.len() > 1);
}

#[test]
fn pauses_that_cannot_be_counted_are_told() {
    assert!(backoff_fits(&TimeSpan::from_millis(500), 6));
    assert!(!backoff_fits(&TimeSpan::from_millis(u64::MAX), 0));
    assert!(!backoff_fits(&TimeSpan::from_millis(u64::MAX / 2), 1));
    assert!(backoff_fits(&TimeSpan::from_millis(u64::MAX - MAX_JITTER_MS), 0));
}
