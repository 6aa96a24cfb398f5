use qomicex_downloader::ranged::{
    fallback_message, resume_message, split_message, PartialFile, RangedRun, RangedStep,
    SegmentOutcome, FIRST_SPLIT_INDEX, MIN_SPLIT_REMAINING,
};
use qomicex_downloader::segment::{build_segments, Segment};

const MB: u64 = 1024 * 1024;

#[test]
fn segment_small_file_single_segment() {
    let segs = build_segments(8 * 1024, 8 * 1024 * 1024, 16, 10 * 1024 * 1024);
    assert_eq!(segs.len(), 1);
    assert_eq!(segs[0].len(), 8 * 1024);
}

#[test]
fn big_file_split_by_size() {
    let segs = build_segments(30 * 1024 * 1024, 8 * 1024 * 1024, 16, 10 * 1024 * 1024);
    assert_eq!(segs.len(), 4);
    let total: u64 = segs.iter().map(|s| s.len()).sum();
    assert_eq!(total, 30 * 1024 * 1024);
    for w in segs.windows(2) {
        assert_eq!(w[0].end + 1, w[1].start);
    }
}

#[test]
fn split_bounds() {
    let s = Segment::new(0, 0, 99);
    let (a, b) = s.split(1);
    assert_eq!(a.len() + b.len(), 100);
    assert_eq!(a.end + 1, b.start);
    assert_eq!(a.downloaded + b.downloaded, 0);
}

#[test]
fn split_preserves_downloaded() {
    let mut s = Segment::new(0, 0, 99);
    s.record(60);
    let (a, b) = s.split(1);
    assert_eq!(a.downloaded, 50);
    assert_eq!(b.downloaded, 10);
}

#[test]
fn align_clamps() {
    let mut s = Segment::new(0, 100, 199);
    s.align_to_part(150);
    assert_eq!(s.downloaded, 50);
    s.align_to_part(1000);
    assert_eq!(s.downloaded, 100);
    s.align_to_part(0);
    assert_eq!(s.downloaded, 0);
}

#[test]
fn shared_counter_visible_across_clones() {
    let mut run = RangedRun::new(1000, 8 * MB, 16, 10 * MB);
    let started = run.start_pending();
    let original = Segment::new(0, 0, 999);
    assert_eq!(started, vec![original]);
    let task_copy = started[0];
    run.record(&task_copy, 123);
    assert_eq!(run.current(&original).unwrap().downloaded, 123);
    assert_eq!(run.resume_from(50), PartialFile::Resumed);
    assert_eq!(run.current(&task_copy).unwrap().downloaded, 50);
}

#[test]
fn cutting_handles_empty_and_tiny_files() {
    assert_eq!(build_segments(0, 8, 16, 10), vec![Segment::new(0, 0, 0)]);
    assert_eq!(build_segments(1, 8, 16, 0), vec![Segment::new(0, 0, 0)]);
    assert_eq!(build_segments(10, 8, 16, 10).len(), 1);
    assert_eq!(build_segments(11, 8, 16, 10).len(), 2);
}

#[test]
fn cutting_keeps_to_the_limit() {
    let segs = build_segments(100, 1, 3, 10);
    assert_eq!(
        segs,
        vec![Segment::new(0, 0, 33), Segment::new(1, 34, 66), Segment::new(2, 67, 99)]
    );
    assert_eq!(build_segments(100, 1, 0, 10).len(), 1);
}

#[test]
fn segment_counters() {
    let mut s = Segment::new(7, 10, 19);
    assert_eq!(s.len(), 10);
    assert_eq!(s.remaining(), 10);
    assert!(!s.finished());
    s.record(10);
    assert!(s.finished());
    assert_eq!(s.remaining(), 0);
    s.record(u64::MAX);
    assert_eq!(s.downloaded, 9);
}

fn run_of(total: u64) -> RangedRun {
    RangedRun::new(total, 8 * MB, 2, 10 * MB)
}

/// The ranges that a run asks for when it starts.
fn requests(run: &mut RangedRun) -> Vec<Option<(u64, u64)>> {
    run.start_pending().iter().map(|s| s.next_request()).collect()
}

#[test]
fn unknown_partial_files_are_judged_by_size() {
    let mut run = run_of(30 * MB);
    assert_eq!(run.resume_from(31 * MB), PartialFile::Discard);
    assert_eq!(run.resume_from(0), PartialFile::Empty);
    assert_eq!(run.resume_from(20 * MB), PartialFile::Empty);
    assert_eq!(requests(&mut run), vec![Some((0, 15 * MB - 1)), Some((15 * MB, 30 * MB - 1))]);
}

#[test]
fn one_writer_goes_on_from_its_file() {
    let mut small = RangedRun::new(1000, 8 * MB, 16, 10 * MB);
    assert_eq!(small.resume_from(400), PartialFile::Resumed);
    assert_eq!(requests(&mut small), vec![Some((400, 999))]);
    let mut single = RangedRun::new(30 * MB, 8 * MB, 1, 10 * MB);
    assert_eq!(single.resume_from(7 * MB), PartialFile::Resumed);
    assert_eq!(requests(&mut single), vec![Some((7 * MB, 30 * MB - 1))]);
    let mut cut = RangedRun::new(MB, 8 * MB, 16, 10 * MB);
    assert_eq!(cut.resume_from(400), PartialFile::Empty);
}

#[test]
fn a_stopped_run_goes_on_where_it_was() {
    let mut stopped = RangedRun::new(30, 10, 3, 0);
    let segs = stopped.start_pending();
    stopped.record(&segs[0], 10);
    stopped.segment_ended(&segs[0], SegmentOutcome::Completed);
    stopped.record(&segs[1], 3);
    stopped.record(&segs[2], 4);
    stopped.segment_ended(&segs[1], SegmentOutcome::Exhausted);
    stopped.put_by();
    assert_eq!(stopped.active_count(), 0);
    assert!(stopped.fits(30, 24) && stopped.fits(30, 30));
    assert!(!stopped.fits(30, 23) && !stopped.fits(31, 24) && !stopped.fits(30, 31));
    let (mut next, verdict) = RangedRun::begin(Some(stopped), 30, 10, 3, 0, 24);
    assert_eq!(verdict, PartialFile::TakenUp);
    let again = next.start_pending();
    assert_eq!(again.len(), 2);
    assert_eq!(again[0].next_request(), Some((13, 19)));
    assert_eq!(again[1].next_request(), Some((24, 29)));
    next.record(&again[0], 7);
    next.record(&again[1], 6);
    for s in &again {
        next.segment_ended(s, SegmentOutcome::Completed);
    }
    assert_eq!(next.next_step(), RangedStep::Finish);
}

fn half_done() -> RangedRun {
    let mut run = RangedRun::new(30, 10, 3, 0);
    let segs = run.start_pending();
    run.record(&segs[2], 4);
    run.put_by();
    run
}

#[test]
fn what_does_not_fit_is_fetched_anew() {
    let whole = vec![Some((0, 9)), Some((10, 19)), Some((20, 29))];
    let (mut run, verdict) = RangedRun::begin(Some(half_done()), 30, 10, 3, 0, 23);
    assert_eq!((verdict, requests(&mut run)), (PartialFile::Empty, whole.clone()));
    let (mut run, verdict) = RangedRun::begin(Some(half_done()), 30, 10, 3, 0, 31);
    assert_eq!((verdict, requests(&mut run)), (PartialFile::Discard, whole.clone()));
    let (mut run, verdict) = RangedRun::begin(Some(half_done()), 33, 11, 3, 0, 24);
    assert_eq!(verdict, PartialFile::Empty);
    assert_eq!(requests(&mut run)[0], Some((0, 10)));
    let (mut run, verdict) = RangedRun::begin(None, 30, 10, 3, 0, 24);
    assert_eq!(verdict, PartialFile::Empty);
    assert_eq!(requests(&mut run).len(), 3);
    let (mut run, verdict) = RangedRun::begin(None, 30, 10, 1, 0, 24);
    assert_eq!((verdict, requests(&mut run)), (PartialFile::Resumed, vec![Some((24, 29))]));
    let (mut run, verdict) = RangedRun::begin(None, 30, 10, 3, 0, 0);
    assert_eq!((verdict, requests(&mut run)), (PartialFile::Empty, whole));
}

#[test]
fn holes_in_a_partial_file_are_fetched() {
    let (mut run, verdict) = RangedRun::begin(Some(half_done()), 30, 10, 3, 0, 24);
    assert_eq!(verdict, PartialFile::TakenUp);
    assert_eq!(requests(&mut run), vec![Some((0, 9)), Some((10, 19)), Some((24, 29))]);
}

#[test]
fn a_stopped_stream_is_taken_up_in_segments() {
    let stopped = RangedRun::of_stream(30, 10, 3, 0, 14);
    let (mut run, verdict) = RangedRun::begin(Some(stopped), 30, 10, 3, 0, 14);
    assert_eq!(verdict, PartialFile::TakenUp);
    assert_eq!(requests(&mut run), vec![Some((14, 19)), Some((20, 29))]);
}

#[test]
fn a_cut_is_put_by_too() {
    let mut run = RangedRun::new(4 * MIN_SPLIT_REMAINING, 4 * MIN_SPLIT_REMAINING, 2, 0);
    let segs = run.start_pending();
    run.record(&segs[0], MIN_SPLIT_REMAINING);
    assert_eq!(run.split_slowest(), Some(0));
    run.put_by();
    let total = 4 * MIN_SPLIT_REMAINING;
    let (mut next, verdict) =
        RangedRun::begin(Some(run), total, total, 2, 0, MIN_SPLIT_REMAINING);
    assert_eq!(verdict, PartialFile::TakenUp);
    assert_eq!(
        requests(&mut next),
        vec![Some((MIN_SPLIT_REMAINING, total / 2 - 1)), Some((total / 2, total - 1))]
    );
}

#[test]
fn no_piece_reaches_behind_its_segment() {
    let mut s = Segment::new(0, 10, 19);
    assert_eq!(s.reach(), 0);
    assert!(s.fits(4) && s.fits(10) && !s.fits(11));
    s.record(8);
    assert_eq!(s.reach(), 18);
    assert!(s.fits(2) && !s.fits(3));
    s.record(2);
    assert_eq!(s.reach(), 20);
    assert!(s.fits(0) && !s.fits(1));
    s.rewind();
    assert_eq!(s.next_request(), Some((10, 19)));
}

#[test]
fn a_segment_that_is_not_trusted_is_fetched_again() {
    let mut run = RangedRun::new(20, 10, 2, 0);
    let segs = run.start_pending();
    run.record(&segs[0], 10);
    run.record(&segs[1], 6);
    run.rewind(&segs[0]);
    assert_eq!(run.current(&segs[0]).unwrap().downloaded, 0);
    assert_eq!(run.current(&segs[1]).unwrap().downloaded, 6);
    run.rewind(&Segment::new(7, 0, 9));
    assert_eq!(run.current(&segs[1]).unwrap().downloaded, 6);
}

#[test]
fn running_segments_are_counted() {
    let mut run = RangedRun::new(100, 10, 3, 10);
    assert_eq!(run.active_count(), 0);
    run.start_pending();
    assert_eq!(run.active_count(), 3);
}

#[test]
fn longer_segments_come_first() {
    let sizes: Vec<u64> = build_segments(11, 3, 4, 0).iter().map(|s| s.len()).collect();
    assert_eq!(sizes, vec![3, 3, 3, 2]);
}

#[test]
fn segments_start_in_order_up_to_the_limit() {
    let mut run = RangedRun::new(100, 10, 3, 10);
    let started = run.start_pending();
    let indices: Vec<u32> = started.iter().map(|s| s.index).collect();
    assert_eq!(indices, vec![0, 1, 2]);
    assert_eq!(run.running(), vec![0, 1, 2]);
    assert!(run.start_pending().is_empty());
    assert_eq!(run.next_step(), RangedStep::Wait);
}

#[test]
fn a_run_completes_when_all_segments_do() {
    let mut run = RangedRun::new(30 * MB, 8 * MB, 16, 10 * MB);
    let started = run.start_pending();
    assert_eq!(started.len(), 4);
    for s in &started {
        run.record(s, s.len());
        run.segment_ended(s, SegmentOutcome::Completed);
    }
    assert!(run.start_pending().is_empty());
    assert!(run.all_finished());
    assert_eq!(run.next_step(), RangedStep::Finish);
}

#[test]
fn a_segment_that_fails_for_good_ends_in_the_fallback() {
    let mut run = run_of(30 * MB);
    let started = run.start_pending();
    run.segment_ended(&started[0], SegmentOutcome::Exhausted);
    assert_eq!(run.next_step(), RangedStep::Wait);
    run.segment_ended(&started[1], SegmentOutcome::Interrupted);
    assert!(run.start_pending().is_empty());
    assert_eq!(run.next_step(), RangedStep::Fallback);
}

#[test]
fn a_run_that_breaks_down_ends_in_the_fallback() {
    let mut run = run_of(30 * MB);
    let started = run.start_pending();
    run.run_lost(&started[0], true);
    assert_eq!(run.running(), vec![0, 1]);
    run.run_lost(&started[0], false);
    run.segment_ended(&started[1], SegmentOutcome::Completed);
    assert_eq!(run.next_step(), RangedStep::Fallback);
}

#[test]
fn the_largest_rest_is_cut_in_two() {
    let mut run = RangedRun::new(200_000, 1, 2, 199_999);
    let started = run.start_pending();
    assert_eq!(started.len(), 2);
    run.record(&started[0], 100_000);
    assert_eq!(run.split_slowest(), None);
    run.segment_ended(&started[0], SegmentOutcome::Completed);
    run.record(&started[1], 10_000);
    assert_eq!(run.split_slowest(), Some(1));
    assert_eq!(run.running(), Vec::<u32>::new());
    let halves = run.start_pending();
    assert_eq!(halves.len(), 2);
    assert_eq!(
        halves[0],
        Segment { index: 1, start: 100_000, end: 149_999, downloaded: 10_000 }
    );
    assert_eq!(
        halves[1],
        Segment { index: FIRST_SPLIT_INDEX, start: 150_000, end: 199_999, downloaded: 0 }
    );
    run.record(&started[1], 77);
    run.segment_ended(&started[1], SegmentOutcome::Completed);
    assert_eq!(run.running(), vec![1, FIRST_SPLIT_INDEX]);
    assert_eq!(run.current(&started[1]), None);
    assert_eq!(run.current(&halves[0]).unwrap().downloaded, 10_000);
}

#[test]
fn a_segment_is_complete_only_with_its_last_byte() {
    let mut run = run_of(1000);
    let started = run.start_pending();
    run.record(&started[0], 999);
    run.segment_ended(&started[0], SegmentOutcome::Completed);
    assert!(!run.all_finished());
    let again = run.start_pending();
    assert_eq!(again, vec![Segment { downloaded: 999, ..started[0] }]);
    run.record(&again[0], 1);
    run.segment_ended(&again[0], SegmentOutcome::Completed);
    assert_eq!(run.next_step(), RangedStep::Finish);
}

#[test]
fn a_small_rest_is_not_cut() {
    let mut run = RangedRun::new(MIN_SPLIT_REMAINING - 1, 1, 2, u64::MAX);
    run.start_pending();
    assert_eq!(run.split_slowest(), None);
    let mut run = RangedRun::new(MIN_SPLIT_REMAINING, 1, 2, u64::MAX);
    run.start_pending();
    assert_eq!(run.split_slowest(), Some(0));
}

#[test]
fn segment_log_messages() {
    assert_eq!(resume_message(42), "断点续传: 已存在 .part 42 字节");
    assert_eq!(split_message(3), "动态拆分: 段 3 → 2 段");
    assert_eq!(fallback_message(), "分片重试耗尽，降级整文件重试");
}
