//! The run of one download from the first request to the finished file.
use vstd::prelude::*;

use crate::digest::{finalize_verified, Publish};
use crate::error::DownloadError;
use crate::hex;
use crate::plan;
use crate::plan::{
    plan_cached, plan_probed, redownload_message, AfterRun, ProbeResult, Probing, Redownload,
    RunPlan,
};
use crate::retry;
use crate::retry::{Retries, SegmentAction, StreamAction, UrlRing};
use crate::transfer::{check_length, SegError};

verus! {

/// What a run is at.
#[derive(Debug, PartialEq, Eq)]
pub enum Stage {
    /// It is to be looked up what is known of the host.
    Start,
    /// The current URL is to be asked for size and ranges.
    Probe,
    /// The host is known to serve ranges: the current URL is to be asked for the size.
    Size,
    /// The file is to be fetched in segments.
    Ranged { total: u64 },
    /// All segments are there: the partial file is to be measured.
    Measure { total: u64 },
    /// The file is to be fetched as one stream.
    Streamed { total: u64 },
    /// The file is there: its digest is to be computed.
    Hash,
    /// The file is to be moved to its destination.
    Move(Publish),
    /// The file has the wrong digest and is to be deleted, then to be fetched again.
    DiscardAndRepeat,
    /// The file has the wrong digest and is to be deleted; the run then ends with this
    /// error.
    DiscardAndEnd(DownloadError),
    /// The run has ended.
    Ended(Result<(), DownloadError>),
}

/// How fetching a file in segments ended.
#[derive(Debug, PartialEq, Eq)]
pub enum RangedEnd {
    /// All segments are there.
    Finished,
    /// The segments cannot complete the file.
    Fallback,
    /// The run was stopped, or something else went wrong.
    Stopped(DownloadError),
}

/// What happens in a run.
#[derive(Debug, PartialEq, Eq)]
pub enum RunEvent {
    /// Whether the host serves ranges, where that is known.
    HostKnown(Option<bool>),
    /// What the current URL said of the file.
    Probed(Result<ProbeResult, DownloadError>),
    /// The size that the current URL states, where it does.
    Sized(Option<u64>),
    /// How fetching in segments ended.
    RangedEnded(RangedEnd),
    /// The size of the partial file.
    Measured(Result<u64, String>),
    /// How fetching as one stream ended.
    StreamEnded(Result<(), DownloadError>),
    /// The digest of the partial file.
    Hashed(Result<[u8; 32], String>),
    /// How the pending step of moving the file went.
    Moved(Result<(), String>),
    /// The partial file has been deleted.
    Discarded,
}

/// The run of one download.
#[derive(Debug, PartialEq, Eq)]
pub struct DownloadRun {
    stage: Stage,
    ring: UrlRing,
    probing: Probing,
    redownload: Redownload,
    sha256: Option<[u8; 32]>,
    split_threshold: u64,
}

/// The run of one download, as plain mathematical values.
#[verifier::ext_equal]
pub struct RunView {
    pub stage: Stage,
    /// The URLs, the current one first.
    pub urls: Seq<String>,
    /// How many URLs are left to ask.
    pub left: nat,
    /// Whether everything has been fetched a second time.
    pub repeated: bool,
    /// The digest that the file must have.
    pub sha256: Option<[u8; 32]>,
    /// Up to this size a file from a known host is fetched in one piece.
    pub split_threshold: u64,
}

impl View for DownloadRun {
    type V = RunView;

    closed spec fn view(&self) -> RunView {
        RunView {
            stage: self.stage,
            urls: self.ring@,
            left: self.probing.left as nat,
            repeated: self.redownload.done,
            sha256: self.sha256,
            split_threshold: self.split_threshold,
        }
    }
}

/// The stage in which a plan is carried out.
pub open spec fn carried_out(p: RunPlan) -> Stage {
    match p {
        RunPlan::Ranged { total } => Stage::Ranged { total },
        RunPlan::Streamed { total } => Stage::Streamed { total },
    }
}

/// The stage after the last byte has arrived: with a digest to check, or without.
pub open spec fn arrived(sha256: Option<[u8; 32]>) -> Stage {
    if sha256 is Some {
        Stage::Hash
    } else {
        Stage::Move(Publish::Open)
    }
}

/// `e` tells of both digests.
pub open spec fn tells_digests(e: DownloadError, expected: Seq<u8>, actual: Seq<u8>) -> bool {
    e matches DownloadError::ChecksumMismatch { expected: x, actual: y } && x@ == hex::hex_text(
        expected,
    ) && y@ == hex::hex_text(actual)
}

impl RunView {
    /// There is a URL to try, and while URLs are asked there is one left.
    pub open spec fn wf(self) -> bool {
        &&& self.urls.len() > 0
        &&& self.stage is Probe ==> 1 <= self.left <= self.urls.len()
        &&& self.stage is Hash ==> self.sha256 is Some
    }

    /// The run in another stage.
    pub open spec fn at(self, stage: Stage) -> RunView {
        RunView { stage, ..self }
    }

    /// The run with its URLs in another order.
    pub open spec fn with_urls(self, urls: Seq<String>) -> RunView {
        RunView { urls, ..self }
    }

    /// After attempts that may have turned the URLs, and then `event`, the run is as `b`.
    pub open spec fn comes_to(
        self,
        event: RunEvent,
        part: Seq<char>,
        dest: Seq<char>,
        b: RunView,
    ) -> bool {
        exists|urls: Seq<String>| #[trigger]
            self.with_urls(urls).leads_to(event, part, dest, b)
    }

    /// After `event` the run is as `b`. An event that is not waited for changes
    /// nothing.
    pub open spec fn leads_to(
        self,
        event: RunEvent,
        part: Seq<char>,
        dest: Seq<char>,
        b: RunView,
    ) -> bool {
        match (self.stage, event) {
            (Stage::Start, RunEvent::HostKnown(known)) => b == (RunView {
                stage: match known {
                    Some(true) => Stage::Size,
                    Some(false) => carried_out(
                        plan::cached_plan(false, None, self.split_threshold),
                    ),
                    None => Stage::Probe,
                },
                left: self.urls.len(),
                ..self
            }),
            (Stage::Probe, RunEvent::Probed(Ok(probe))) => b == self.at(
                carried_out(plan::probed_plan(probe)),
            ),
            (Stage::Probe, RunEvent::Probed(Err(e))) => b == (RunView {
                stage: if self.left == 1 {
                    Stage::Ended(Err(e))
                } else {
                    Stage::Probe
                },
                left: (self.left - 1) as nat,
                urls: if self.urls.len() >= 2 {
                    retry::turned(self.urls)
                } else {
                    self.urls
                },
                ..self
            }),
            (Stage::Size, RunEvent::Sized(length)) => b == self.at(
                carried_out(plan::cached_plan(true, length, self.split_threshold)),
            ),
            (Stage::Ranged { total }, RunEvent::RangedEnded(end)) => b == self.at(
                match end {
                    RangedEnd::Finished => Stage::Measure { total },
                    RangedEnd::Fallback => Stage::Streamed { total },
                    RangedEnd::Stopped(e) => Stage::Ended(Err(e)),
                },
            ),
            (Stage::Measure { total }, RunEvent::Measured(Ok(actual))) => b == self.at(
                if actual == total {
                    arrived(self.sha256)
                } else {
                    Stage::Ended(Err(DownloadError::Incomplete { expected: total, actual }))
                },
            ),
            (Stage::Measure { total }, RunEvent::Measured(Err(e))) => b == self.at(
                Stage::Ended(Err(DownloadError::Io(e))),
            ),
            (Stage::Streamed { total }, RunEvent::StreamEnded(Ok(_))) => b == self.at(
                arrived(self.sha256),
            ),
            (Stage::Streamed { total }, RunEvent::StreamEnded(Err(e))) => b == self.at(
                Stage::Ended(Err(e)),
            ),
            (Stage::Hash, RunEvent::Hashed(Ok(actual))) => {
                if self.sha256->0@ == actual@ {
                    b == self.at(Stage::Move(Publish::Open))
                } else {
                    &&& b == (RunView { stage: b.stage, repeated: true, ..self })
                    &&& if self.repeated {
                        b.stage is DiscardAndEnd && tells_digests(
                            b.stage->DiscardAndEnd_0,
                            self.sha256->0@,
                            actual@,
                        )
                    } else {
                        b.stage is DiscardAndRepeat
                    }
                }
            },
            (Stage::Hash, RunEvent::Hashed(Err(e))) => b == self.at(
                Stage::Ended(Err(DownloadError::Io(e))),
            ),
            (Stage::Move(p), RunEvent::Moved(outcome)) => {
                &&& b == self.at(b.stage)
                &&& match b.stage {
                    Stage::Move(q) => p.next_is(outcome, part, dest, q) && !(q is Done) && !(
                    q is Failed),
                    Stage::Ended(Ok(_)) => p.next_is(outcome, part, dest, Publish::Done),
                    Stage::Ended(Err(e)) => p.next_is(outcome, part, dest, Publish::Failed(e)),
                    _ => false,
                }
            },
            (Stage::DiscardAndRepeat, RunEvent::Discarded) => b == self.at(Stage::Start),
            (Stage::DiscardAndEnd(e), RunEvent::Discarded) => b == self.at(Stage::Ended(Err(e))),
            _ => b == self,
        }
    }
}

impl DownloadRun {
    /// A run that has not begun, from these URLs.
    pub fn new(urls: Vec<String>, sha256: Option<[u8; 32]>, split_threshold: u64) -> (r: Self)
        requires
            urls@.len() > 0,
        ensures
            r@.wf(),
            r@ == (RunView {
                stage: Stage::Start,
                urls: urls@,
                left: urls@.len(),
                repeated: false,
                sha256,
                split_threshold,
            }),
    {
        let ring = UrlRing::new(urls);
        DownloadRun {
            stage: Stage::Start,
            probing: Probing::new(&ring),
            ring,
            redownload: Redownload::new(),
            sha256,
            split_threshold,
        }
    }

    /// What the run is at.
    pub fn stage(&self) -> (s: &Stage)
        ensures
            *s == self@.stage,
    {
        &self.stage
    }

    /// How the run ended, once it has.
    pub fn outcome(&self) -> (r: Option<Result<(), DownloadError>>)
        ensures
            r == (match self@.stage {
                Stage::Ended(result) => Some(result),
                _ => None,
            }),
    {
        match &self.stage {
            Stage::Ended(Ok(u)) => Some(Ok(*u)),
            Stage::Ended(Err(e)) => Some(Err(e.copied())),
            _ => None,
        }
    }

    /// The URL to ask.
    pub fn current_url(&self) -> (u: String)
        requires
            self@.wf(),
        ensures
            u == self@.urls[0],
    {
        self.ring.current_url()
    }

    /// Begins the attempts at a segment or a stream, with the current URL.
    pub fn begin_attempts(&self, max_retries: u32) -> (r: Retries)
        requires
            self@.wf(),
        ensures
            r@.wf(),
            r@ == (retry::RetriesView {
                attempt: 0,
                max_retries: max_retries as nat,
                urls: self@.urls,
            }),
    {
        Retries::new(&self.ring, max_retries)
    }

    /// Takes in how an attempt at segment `index` ended and decides what to do. What begins
    /// after a change to a mirror begins with that.
    pub fn after_segment_attempt(
        &mut self,
        retries: &mut Retries,
        index: u32,
        result: Result<(), SegError>,
    ) -> (action: SegmentAction)
        requires
            old(self)@.wf(),
            old(retries)@.wf(),
        ensures
            final(self)@.wf(),
            final(retries)@.wf(),
            final(retries)@ == (if retry::segment_failed(result) {
                old(retries)@.failed()
            } else {
                old(retries)@
            }),
            old(retries)@.segment_action_is(index, result, action),
            final(self)@ == (RunView {
                urls: old(retries)@.ring_after(old(self)@.urls, retry::segment_failed(result)),
                ..old(self)@
            }),
    {
        proof {
            if old(retries)@.urls.len() >= 2 {
                retry::law_turning_to_a_url(self@.urls, old(retries)@.urls[1]@);
            }
        }
        retries.after_segment_attempt(&mut self.ring, index, result)
    }

    /// Takes in how an attempt at a stream ended and decides what to do. What begins after a
    /// change to a mirror begins with that.
    pub fn after_stream_attempt(
        &mut self,
        retries: &mut Retries,
        result: Result<(), DownloadError>,
    ) -> (action: StreamAction)
        requires
            old(self)@.wf(),
            old(retries)@.wf(),
        ensures
            final(self)@.wf(),
            final(retries)@.wf(),
            final(retries)@ == (if retry::stream_failed(result) {
                old(retries)@.failed()
            } else {
                old(retries)@
            }),
            old(retries)@.stream_action_is(result, action),
            final(self)@ == (RunView {
                urls: old(retries)@.ring_after(old(self)@.urls, retry::stream_failed(result)),
                ..old(self)@
            }),
    {
        proof {
            if old(retries)@.urls.len() >= 2 {
                retry::law_turning_to_a_url(self@.urls, old(retries)@.urls[1]@);
            }
        }
        retries.after_stream_attempt(&mut self.ring, result)
    }

    /// The stage after the last byte has arrived.
    fn after_arrival(&self) -> (s: Stage)
        ensures
            s == arrived(self.sha256),
    {
        match self.sha256 {
            Some(_) => Stage::Hash,
            None => Stage::Move(Publish::Open),
        }
    }

    /// Takes in what happened. The texts of the paths are for messages. A message to
    /// log is returned when everything is to be fetched again.
    pub fn advance(&mut self, event: RunEvent, part: &str, dest: &str) -> (log: Option<String>)
        requires
            old(self)@.wf(),
        ensures
            final(self)@.wf(),
            old(self)@.leads_to(event, part@, dest@, final(self)@),
            log is Some <==> !(old(self)@.stage is DiscardAndRepeat)
                && final(self)@.stage is DiscardAndRepeat,
            log is Some ==> log->0@ == "SHA-256 校验失败，删除 .part 自动重下"@,
    {
        let mut stage: Stage = Stage::Start;
        std::mem::swap(&mut stage, &mut self.stage);
        match (stage, event) {
            (Stage::Start, RunEvent::HostKnown(known)) => {
                self.probing = Probing::new(&self.ring);
                self.stage = match known {
                    Some(true) => Stage::Size,
                    Some(false) => match plan_cached(false, None, self.split_threshold) {
                        RunPlan::Ranged { total } => Stage::Ranged { total },
                        RunPlan::Streamed { total } => Stage::Streamed { total },
                    },
                    None => Stage::Probe,
                };
            },
            (Stage::Probe, RunEvent::Probed(Ok(probe))) => {
                self.stage = match plan_probed(&probe) {
                    RunPlan::Ranged { total } => Stage::Ranged { total },
                    RunPlan::Streamed { total } => Stage::Streamed { total },
                };
            },
            (Stage::Probe, RunEvent::Probed(Err(e))) => {
                self.stage = match self.probing.failed(&mut self.ring, e) {
                    Some(e) => Stage::Ended(Err(e)),
                    None => Stage::Probe,
                };
            },
            (Stage::Size, RunEvent::Sized(length)) => {
                self.stage = match plan_cached(true, length, self.split_threshold) {
                    RunPlan::Ranged { total } => Stage::Ranged { total },
                    RunPlan::Streamed { total } => Stage::Streamed { total },
                };
            },
            (Stage::Ranged { total }, RunEvent::RangedEnded(end)) => {
                self.stage = match end {
                    RangedEnd::Finished => Stage::Measure { total },
                    RangedEnd::Fallback => Stage::Streamed { total },
                    RangedEnd::Stopped(e) => Stage::Ended(Err(e)),
                };
            },
            (Stage::Measure { total }, RunEvent::Measured(Ok(actual))) => {
                self.stage = match check_length(total, actual) {
                    Ok(_) => self.after_arrival(),
                    Err(e) => Stage::Ended(Err(e)),
                };
            },
            (Stage::Measure { .. }, RunEvent::Measured(Err(e))) => {
                self.stage = Stage::Ended(Err(DownloadError::Io(e)));
            },
            (Stage::Streamed { .. }, RunEvent::StreamEnded(Ok(_))) => {
                self.stage = self.after_arrival();
            },
            (Stage::Streamed { .. }, RunEvent::StreamEnded(Err(e))) => {
                self.stage = Stage::Ended(Err(e));
            },
            (Stage::Hash, RunEvent::Hashed(Ok(actual))) => {
                match finalize_verified(&self.sha256, &Some(actual)) {
                    Ok(p) => {
                        self.stage = Stage::Move(p);
                    },
                    Err(e) => {
                        let result: Result<(), DownloadError> = Err(e);
                        let verdict: AfterRun = self.redownload.after(&result);
                        match (verdict, result) {
                            (AfterRun::DiscardAndRepeat, _) => {
                                self.stage = Stage::DiscardAndRepeat;
                                return Some(redownload_message());
                            },
                            (_, Err(e)) => {
                                self.stage = Stage::DiscardAndEnd(e);
                            },
                            (_, Ok(_)) => {},
                        }
                    },
                }
            },
            (Stage::Hash, RunEvent::Hashed(Err(e))) => {
                self.stage = Stage::Ended(Err(DownloadError::Io(e)));
            },
            (Stage::Move(p), RunEvent::Moved(outcome)) => {
                self.stage = match p.next(outcome, part, dest) {
                    Publish::Done => Stage::Ended(Ok(())),
                    Publish::Failed(e) => Stage::Ended(Err(e)),
                    q => Stage::Move(q),
                };
            },
            (Stage::DiscardAndRepeat, RunEvent::Discarded) => {
                self.stage = Stage::Start;
            },
            (Stage::DiscardAndEnd(e), RunEvent::Discarded) => {
                self.stage = Stage::Ended(Err(e));
            },
            (other, _) => {
                self.stage = other;
            },
        }
        None
    }
}

/// `runs` is what a run goes through as `events` happen, from before its beginning.
pub open spec fn is_course(
    runs: Seq<RunView>,
    events: Seq<RunEvent>,
    part: Seq<char>,
    dest: Seq<char>,
) -> bool {
    &&& runs.len() == events.len() + 1
    &&& runs[0].stage is Start
    &&& !runs[0].repeated
    &&& forall|i: int|
        #![trigger events[i]]
        0 <= i < events.len() ==> runs[i].comes_to(events[i], part, dest, runs[i + 1])
}

/// With event `i` the last byte of the file arrived: the partial file has the size of
/// the file, or the stream was complete.
pub open spec fn whole_at(runs: Seq<RunView>, events: Seq<RunEvent>, i: int) -> bool {
    ||| (runs[i].stage matches Stage::Measure { total } && events[i] == RunEvent::Measured(
        Ok(total),
    ))
    ||| runs[i].stage is Streamed && (events[i] matches RunEvent::StreamEnded(Ok(_)))
}

/// With event `i` the file was found to have the digest `d`.
pub open spec fn checked_at(
    runs: Seq<RunView>,
    events: Seq<RunEvent>,
    d: Seq<u8>,
    i: int,
) -> bool {
    &&& runs[i].stage is Hash
    &&& events[i] matches RunEvent::Hashed(Ok(a))
    &&& a@ == d
}

/// With event `i` the file was written through to the disk.
pub open spec fn synced_at(runs: Seq<RunView>, events: Seq<RunEvent>, i: int) -> bool {
    runs[i].stage == Stage::Move(Publish::Sync) && (events[i] matches RunEvent::Moved(Ok(_)))
}

/// With event `i` the file was renamed.
pub open spec fn renamed_at(runs: Seq<RunView>, events: Seq<RunEvent>, i: int) -> bool {
    &&& runs[i].stage matches Stage::Move(p)
    &&& p is Rename || p is RenameAgain
    &&& events[i] matches RunEvent::Moved(Ok(_))
}

/// After event `from` and up to event `to` nothing is written to the file.
pub open spec fn untouched(runs: Seq<RunView>, from: int, to: int) -> bool {
    forall|i: int|
        from < i <= to ==> (#[trigger] runs[i]).stage is Hash || runs[i].stage is Move
}

/// Before event `k` the file was complete, with event `w`, and has not been touched
/// since.
pub open spec fn is_fetched(
    runs: Seq<RunView>,
    events: Seq<RunEvent>,
    k: int,
    w: int,
) -> bool {
    0 <= w < k && whole_at(runs, events, w) && untouched(runs, w, k)
}

/// Besides, the file was found to have the digest that it must have, if any, with
/// event `c`.
pub open spec fn is_checked(
    runs: Seq<RunView>,
    events: Seq<RunEvent>,
    k: int,
    w: int,
    c: int,
) -> bool {
    &&& is_fetched(runs, events, k, w)
    &&& runs[0].sha256 matches Some(d) ==> w < c < k && checked_at(runs, events, d@, c)
}

/// Besides, the file was after that written through to the disk, with event `s`.
pub open spec fn is_synced(
    runs: Seq<RunView>,
    events: Seq<RunEvent>,
    k: int,
    w: int,
    c: int,
    s: int,
) -> bool {
    &&& is_checked(runs, events, k, w, c)
    &&& w < s < k
    &&& runs[0].sha256 is Some ==> c < s
    &&& synced_at(runs, events, s)
}

/// Before event `k` the file was complete, then checked, then written through to the
/// disk, and then, with event `r`, renamed, and nothing was written to it meanwhile.
pub open spec fn is_published(
    runs: Seq<RunView>,
    events: Seq<RunEvent>,
    k: int,
    w: int,
    c: int,
    s: int,
    r: int,
) -> bool {
    r < k && is_synced(runs, events, r, w, c, s) && renamed_at(runs, events, r)
}

/// Moving a file happens after it is complete and checked; its last steps happen after
/// it has been written through to the disk.
proof fn lemma_course(
    runs: Seq<RunView>,
    events: Seq<RunEvent>,
    part: Seq<char>,
    dest: Seq<char>,
    k: int,
)
    requires
        is_course(runs, events, part, dest),
        0 <= k < runs.len(),
    ensures
        runs[k].sha256 == runs[0].sha256,
        runs[k].stage is Hash ==> runs[0].sha256 is Some && exists|w: int| #[trigger]
            is_fetched(runs, events, k, w),
        runs[k].stage is Move ==> exists|w: int, c: int| #[trigger]
            is_checked(runs, events, k, w, c),
        (runs[k].stage matches Stage::Move(p) && (p is Rename || p is ClearDest
            || p is RenameAgain)) ==> exists|w: int, c: int, s: int| #[trigger]
            is_synced(runs, events, k, w, c, s),
        runs[k].stage matches Stage::Move(p) ==> !(p is Done) && !(p is Failed),
        (runs[k].stage matches Stage::Ended(Ok(_))) ==> exists|w: int, c: int, s: int, r: int|
            #[trigger] is_published(runs, events, k, w, c, s, r),
    decreases k,
{
    if k > 0 {
        let p = k - 1;
        lemma_course(runs, events, part, dest, p);
        let a = runs[p];
        let b = runs[k];
        assert(a.comes_to(events[p], part, dest, b));
        if b.stage is Hash {
            if a.stage is Hash {
                let w = choose|w: int| #[trigger] is_fetched(runs, events, p, w);
                assert(is_fetched(runs, events, k, w));
            } else {
                assert(is_fetched(runs, events, k, p));
            }
        }
        if b.stage is Move {
            if a.stage is Hash {
                let w = choose|w: int| #[trigger] is_fetched(runs, events, p, w);
                assert(is_checked(runs, events, k, w, p));
            } else if a.stage is Move {
                let (w, c) = choose|w: int, c: int| #[trigger] is_checked(runs, events, p, w, c);
                assert(is_checked(runs, events, k, w, c));
                let step = a.stage->Move_0;
                if step is Rename || step is ClearDest || step is RenameAgain {
                    let (w, c, s) = choose|w: int, c: int, s: int| #[trigger]
                        is_synced(runs, events, p, w, c, s);
                    assert(is_synced(runs, events, k, w, c, s));
                } else if step is Sync && b.stage->Move_0 is Rename && events[p] is Moved {
                    assert(synced_at(runs, events, p));
                    assert(is_synced(runs, events, k, w, c, p));
                }
            } else {
                assert(is_checked(runs, events, k, p, p));
            }
        }
        if b.stage matches Stage::Ended(Ok(_)) {
            if a.stage is Move {
                let (w, c, s) = choose|w: int, c: int, s: int| #[trigger]
                    is_synced(runs, events, p, w, c, s);
                assert(is_published(runs, events, k, w, c, s, p));
            } else {
                let (w, c, s, r) = choose|w: int, c: int, s: int, r: int| #[trigger]
                    is_published(runs, events, p, w, c, s, r);
                assert(is_published(runs, events, k, w, c, s, r));
            }
        }
    }
}

/// A download succeeds only with a file that was complete, had the digest that it must
/// have, was written through to the disk and was then renamed, in this order, with
/// nothing written to it in between.
pub proof fn law_success_means_published(
    runs: Seq<RunView>,
    events: Seq<RunEvent>,
    part: Seq<char>,
    dest: Seq<char>,
    k: int,
)
    requires
        is_course(runs, events, part, dest),
        0 <= k < runs.len(),
        runs[k].stage matches Stage::Ended(Ok(_)),
    ensures
        exists|w: int, c: int, s: int, r: int| #[trigger]
            is_published(runs, events, k, w, c, s, r),
{
    lemma_course(runs, events, part, dest, k);
}

/// A file with the wrong digest is never kept: the run goes on, or ends, only once it
/// has been deleted; and everything is fetched again at most once.
pub proof fn law_wrong_file_is_discarded(
    a: RunView,
    event: RunEvent,
    part: Seq<char>,
    dest: Seq<char>,
    b: RunView,
)
    requires
        a.leads_to(event, part, dest, b),
    ensures
        a.stage is Hash && (event matches RunEvent::Hashed(Ok(d)) && d@ != a.sha256->0@)
            ==> b.stage is DiscardAndRepeat || b.stage is DiscardAndEnd,
        a.stage is DiscardAndRepeat || a.stage is DiscardAndEnd ==> b.stage == a.stage
            || event is Discarded,
        b.stage is DiscardAndRepeat && !(a.stage is DiscardAndRepeat) ==> !a.repeated
            && b.repeated,
        a.repeated ==> b.repeated,
{
}

/// Event `i` makes the run fetch everything again.
pub open spec fn repeats_at(runs: Seq<RunView>, i: int) -> bool {
    !(runs[i].stage is DiscardAndRepeat) && runs[i + 1].stage is DiscardAndRepeat
}

/// Once everything is fetched a second time, that is remembered.
proof fn lemma_repeat_is_remembered(
    runs: Seq<RunView>,
    events: Seq<RunEvent>,
    part: Seq<char>,
    dest: Seq<char>,
    i: int,
    j: int,
)
    requires
        is_course(runs, events, part, dest),
        0 <= i <= j < runs.len(),
        runs[i].repeated,
    ensures
        runs[j].repeated,
    decreases j - i,
{
    if i < j {
        assert(runs[i].comes_to(events[i], part, dest, runs[i + 1]));
        lemma_repeat_is_remembered(runs, events, part, dest, i + 1, j);
    }
}

/// Everything is fetched again at most once.
pub proof fn law_at_most_one_redownload(
    runs: Seq<RunView>,
    events: Seq<RunEvent>,
    part: Seq<char>,
    dest: Seq<char>,
    i: int,
    j: int,
)
    requires
        is_course(runs, events, part, dest),
        0 <= i < events.len(),
        0 <= j < events.len(),
        repeats_at(runs, i),
        repeats_at(runs, j),
    ensures
        i == j,
{
    assert(runs[i].comes_to(events[i], part, dest, runs[i + 1]));
    assert(runs[j].comes_to(events[j], part, dest, runs[j + 1]));
    if i < j {
        lemma_repeat_is_remembered(runs, events, part, dest, i + 1, j);
    } else if j < i {
        lemma_repeat_is_remembered(runs, events, part, dest, j + 1, i);
    }
}

/// A run that is stopped while it fetches, in segments or as one stream, ends with that
/// error at once: its partial file is neither deleted nor moved. Whatever happens
/// later leaves it so.
pub proof fn law_stopped_run_keeps_its_file(
    a: RunView,
    event: RunEvent,
    part: Seq<char>,
    dest: Seq<char>,
    b: RunView,
)
    requires
        a.leads_to(event, part, dest, b),
    ensures
        a.stage is Ranged ==> (event matches RunEvent::RangedEnded(RangedEnd::Stopped(e))
            ==> b.stage == Stage::Ended(Err(e))),
        a.stage is Streamed ==> (event matches RunEvent::StreamEnded(Err(e)) ==> b.stage
            == Stage::Ended(Err(e))),
        a.stage is Ended ==> b == a,
{
}

/// As long as another URL has not been asked, an error of whatever kind leads on to the next
/// one; only the error of the last ends the run.
pub proof fn law_error_leads_to_the_next_url(
    a: RunView,
    e: DownloadError,
    part: Seq<char>,
    dest: Seq<char>,
    b: RunView,
)
    requires
        a.wf(),
        a.stage is Probe,
        a.leads_to(RunEvent::Probed(Err(e)), part, dest, b),
    ensures
        b.left == a.left - 1,
        a.left > 1 ==> b.stage is Probe && b.urls == a.urls.drop_first().push(a.urls[0]),
        a.left == 1 ==> b.stage == Stage::Ended(Err(e)),
        b.wf(),
{
}

/// `runs` is what a run goes through as one URL after the other answers with an error, beginning
/// when all of them are still to be asked.
pub open spec fn is_vain_course(
    runs: Seq<RunView>,
    errors: Seq<DownloadError>,
    part: Seq<char>,
    dest: Seq<char>,
) -> bool {
    &&& runs.len() == errors.len() + 1
    &&& runs[0].wf()
    &&& runs[0].stage is Probe
    &&& runs[0].left == runs[0].urls.len()
    &&& forall|i: int|
        #![trigger errors[i]]
        0 <= i < errors.len() ==> runs[i].leads_to(
            RunEvent::Probed(Err(errors[i])),
            part,
            dest,
            runs[i + 1],
        )
}

/// Each URL is asked, in order, before a run gives up, and the error of the last is the one it
/// gives up with.
pub proof fn law_every_url_is_asked(
    runs: Seq<RunView>,
    errors: Seq<DownloadError>,
    part: Seq<char>,
    dest: Seq<char>,
    i: int,
)
    requires
        is_vain_course(runs, errors, part, dest),
        0 <= i < runs.len(),
        runs.len() <= runs[0].urls.len() + 1,
    ensures
        i < runs[0].urls.len() ==> {
            &&& runs[i].stage is Probe
            &&& runs[i].urls[0] == runs[0].urls[i]
            &&& runs[i].left == runs[0].urls.len() - i
        },
        i == runs[0].urls.len() ==> runs[i].stage == Stage::Ended(Err(errors[i - 1])),
{
    lemma_vain_course(runs, errors, part, dest, i);
    let n = runs[0].urls.len() as int;
    if i < n {
        retry::law_mirrors_take_turns(runs[0].urls, i as nat);
        vstd::arithmetic::div_mod::lemma_small_mod(i as nat, n as nat);
    }
}

/// Each URL that was asked in vain has gone to the end.
proof fn lemma_vain_course(
    runs: Seq<RunView>,
    errors: Seq<DownloadError>,
    part: Seq<char>,
    dest: Seq<char>,
    i: int,
)
    requires
        is_vain_course(runs, errors, part, dest),
        0 <= i < runs.len(),
        runs.len() <= runs[0].urls.len() + 1,
    ensures
        i < runs[0].urls.len() ==> {
            &&& runs[i].stage is Probe
            &&& runs[i].wf()
            &&& runs[i].urls == retry::turned_by(runs[0].urls, i as nat)
            &&& runs[i].left == runs[0].urls.len() - i
        },
        i == runs[0].urls.len() ==> runs[i].stage == Stage::Ended(Err(errors[i - 1])),
    decreases i,
{
    if i > 0 {
        let p = i - 1;
        lemma_vain_course(runs, errors, part, dest, p);
        let e = errors[p];
        assert(runs[p].leads_to(RunEvent::Probed(Err(e)), part, dest, runs[i]));
        law_error_leads_to_the_next_url(runs[p], e, part, dest, runs[i]);
    }
}

/// What is known, or said, of a file decides how it is fetched. A host that is known to serve
/// ranges is asked for the size alone, one that is known not to is not asked at all, any other
/// is probed, with every URL still to be asked. In segments a file is fetched where ranges are
/// served and the size is known: not zero, or, of a known host, above the threshold.
pub proof fn law_run_follows_the_plan(
    a: RunView,
    event: RunEvent,
    part: Seq<char>,
    dest: Seq<char>,
    b: RunView,
)
    requires
        a.leads_to(event, part, dest, b),
    ensures
        a.stage is Start ==> {
            &&& event == RunEvent::HostKnown(Some(true)) ==> b.stage is Size
            &&& event == RunEvent::HostKnown(Some(false)) ==> b.stage == Stage::Streamed {
                total: 0,
            }
            &&& event == RunEvent::HostKnown(None) ==> b.stage is Probe && b.left == a.urls.len()
        },
        a.stage is Probe ==> (event matches RunEvent::Probed(Ok(probe)) ==> {
            &&& probe.range_ok && probe.total is Some && probe.total->0 > 0 ==> b.stage
                == Stage::Ranged { total: probe.total->0 }
            &&& !probe.range_ok || probe.total == Some(0u64) || probe.total is None ==> b.stage
                == Stage::Streamed {
                total: match probe.total {
                    Some(t) => t,
                    None => 0,
                },
            }
        }),
        a.stage is Size ==> (event matches RunEvent::Sized(length) ==> {
            &&& length is Some && length->0 > a.split_threshold ==> b.stage == Stage::Ranged {
                total: length->0,
            }
            &&& length is None || length->0 <= a.split_threshold ==> b.stage == Stage::Streamed {
                total: match length {
                    Some(t) => t,
                    None => 0,
                },
            }
        }),
{
}

/// What has been fetched is measured where it came in segments, fetched again as one stream
/// where the segments could not complete it, and goes on only with the right size: with a
/// digest to check it is hashed, without one it is moved.
pub proof fn law_only_a_whole_file_goes_on(
    a: RunView,
    event: RunEvent,
    part: Seq<char>,
    dest: Seq<char>,
    b: RunView,
)
    requires
        a.leads_to(event, part, dest, b),
    ensures
        a.stage matches Stage::Ranged { total } ==> {
            &&& event == RunEvent::RangedEnded(RangedEnd::Finished) ==> b.stage == Stage::Measure {
                total,
            }
            &&& event == RunEvent::RangedEnded(RangedEnd::Fallback) ==> b.stage == Stage::Streamed {
                total,
            }
        },
        a.stage matches Stage::Measure { total } ==> {
            &&& event matches RunEvent::Measured(Ok(actual)) ==> {
                &&& actual == total && a.sha256 is Some ==> b.stage is Hash
                &&& actual == total && a.sha256 is None ==> b.stage == Stage::Move(Publish::Open)
                &&& actual != total ==> b.stage == Stage::Ended(
                    Err(DownloadError::Incomplete { expected: total, actual }),
                )
            }
            &&& event matches RunEvent::Measured(Err(e)) ==> b.stage == Stage::Ended(
                Err(DownloadError::Io(e)),
            )
        },
        a.stage is Streamed ==> (event matches RunEvent::StreamEnded(Ok(_)) ==> {
            &&& a.sha256 is Some ==> b.stage is Hash
            &&& a.sha256 is None ==> b.stage == Stage::Move(Publish::Open)
        }),
{
}

/// A file with the right digest is moved. One with another is deleted: the first time
/// everything is then fetched again from the start, the second time the run ends with both
/// digests told. A file that cannot be read ends the run too.
pub proof fn law_digest_decides(
    a: RunView,
    event: RunEvent,
    part: Seq<char>,
    dest: Seq<char>,
    b: RunView,
)
    requires
        a.wf(),
        a.leads_to(event, part, dest, b),
    ensures
        a.stage is Hash ==> {
            &&& event matches RunEvent::Hashed(Ok(d)) ==> {
                &&& d@ == a.sha256->0@ ==> b.stage == Stage::Move(Publish::Open)
                &&& d@ != a.sha256->0@ && !a.repeated ==> b.stage is DiscardAndRepeat && b.repeated
                &&& d@ != a.sha256->0@ && a.repeated ==> {
                    &&& b.stage matches Stage::DiscardAndEnd(
                        DownloadError::ChecksumMismatch { expected, actual },
                    )
                    &&& expected@ == hex::hex_text(a.sha256->0@)
                    &&& actual@ == hex::hex_text(d@)
                }
            }
            &&& event matches RunEvent::Hashed(Err(e)) ==> b.stage == Stage::Ended(
                Err(DownloadError::Io(e)),
            )
        },
        a.stage is DiscardAndRepeat && event is Discarded ==> b.stage is Start,
        a.stage matches Stage::DiscardAndEnd(e) ==> (event is Discarded ==> b.stage == Stage::Ended(
            Err(e),
        )),
{
}

/// Moving a file takes its steps one after the other, and ends the run exactly when the file
/// stands at its destination or could not be moved.
pub proof fn law_run_ends_with_the_move(
    a: RunView,
    outcome: Result<(), String>,
    part: Seq<char>,
    dest: Seq<char>,
    b: RunView,
)
    requires
        a.stage is Move,
        a.leads_to(RunEvent::Moved(outcome), part, dest, b),
    ensures
        ({
            let p = a.stage->Move_0;
            &&& p is Open && outcome is Ok ==> b.stage == Stage::Move(Publish::Sync)
            &&& p is Sync && outcome is Ok ==> b.stage == Stage::Move(Publish::Rename)
            &&& p is Rename && outcome is Err ==> b.stage == Stage::Move(
                Publish::ClearDest(outcome->Err_0),
            )
            &&& p is ClearDest ==> b.stage == Stage::Move(Publish::RenameAgain(p->ClearDest_0))
            &&& (p is Rename || p is RenameAgain) && outcome is Ok ==> b.stage is Ended
                && b.stage->Ended_0 is Ok
            &&& (p is Open || p is Sync || p is RenameAgain) && outcome is Err ==> b.stage is Ended
                && b.stage->Ended_0 is Err && b.stage->Ended_0->Err_0 is Other
        }),
{
}

/// Each stage waits for one kind of event; any other changes nothing.
pub proof fn law_run_waits_for_its_event(
    a: RunView,
    event: RunEvent,
    part: Seq<char>,
    dest: Seq<char>,
    b: RunView,
)
    requires
        a.leads_to(event, part, dest, b),
        b != a,
    ensures
        a.stage is Start ==> event is HostKnown,
        a.stage is Probe ==> event is Probed,
        a.stage is Size ==> event is Sized,
        a.stage is Ranged ==> event is RangedEnded,
        a.stage is Measure ==> event is Measured,
        a.stage is Streamed ==> event is StreamEnded,
        a.stage is Hash ==> event is Hashed,
        a.stage is Move ==> event is Moved,
        a.stage is DiscardAndRepeat || a.stage is DiscardAndEnd ==> event is Discarded,
        !(a.stage is Ended),
{
}

/// What a run was asked for never changes, it forgets no URL, and it leaves the order of the
/// URLs alone but when one that was asked has failed.
pub proof fn law_run_keeps_what_it_was_asked_for(
    a: RunView,
    event: RunEvent,
    part: Seq<char>,
    dest: Seq<char>,
    b: RunView,
    url: String,
)
    requires
        a.wf(),
        a.leads_to(event, part, dest, b),
    ensures
        b.sha256 == a.sha256,
        b.split_threshold == a.split_threshold,
        !(a.stage is Probe) ==> b.urls == a.urls,
        b.urls.len() == a.urls.len(),
        a.urls.contains(url) ==> b.urls.contains(url),
        !(a.stage is Hash) ==> b.repeated == a.repeated,
{
    if a.urls.contains(url) && b.urls != a.urls {
        let i = choose|i: int| 0 <= i < a.urls.len() && a.urls[i] == url;
        if i == 0 {
            assert(b.urls[b.urls.len() - 1] == url);
        } else {
            assert(b.urls[i - 1] == url);
        }
    }
}

} // verus!
