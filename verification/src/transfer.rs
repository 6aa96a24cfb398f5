//! One attempt at fetching a segment or a whole file: the request to make, what
//! the answer is worth, and when the attempt ends.
use vstd::prelude::*;

use crate::error::DownloadError;
use crate::segment::Segment;
use crate::task::TimeSpan;
use crate::text;
use crate::text::decimal_text;

verus! {

/// A status that reports success.
pub open spec fn is_success(status: u16) -> bool {
    200 <= status < 300
}

/// A status by which the server reports an error of its own.
pub open spec fn is_server_error(status: u16) -> bool {
    500 <= status < 600
}

/// Why an attempt at a segment ended without its last byte.
#[derive(Clone, Debug, PartialEq, Eq)]
pub enum SegError {
    /// The download was paused, cancelled or shut down.
    Cancelled,
    /// Something that another attempt may mend; the text says what.
    Retryable(String),
}

/// What happens while data is being received.
#[derive(Clone, Debug, PartialEq, Eq)]
pub enum TransferEvent {
    /// A piece of this many bytes arrived. It has been written, unless it holds more than
    /// was missing.
    Chunk(u64),
    /// The connection broke; the text says how.
    NetworkError(String),
    /// Writing failed; the text says how.
    DiskError(String),
    /// The server closed the stream, and the file has been flushed.
    EndOfStream,
    /// The download was paused, cancelled or shut down.
    Cancelled,
}

/// What the answer to the request for a segment is worth.
#[derive(Clone, Copy, Debug, PartialEq, Eq, Structural)]
pub enum AnswerVerdict {
    /// The body holds the requested range.
    Usable,
    /// The body holds the whole file though only a part of it was requested.
    RangeIgnored,
    /// The status reports no success.
    BadStatus,
}

impl Segment {
    /// The range still to be requested: from the first byte missing to the end of
    /// the segment, or nothing where no byte is missing.
    pub open spec fn request(self) -> Option<(u64, u64)> {
        if self.downloaded >= self.size() {
            None
        } else {
            Some(((self.start + self.downloaded) as u64, self.end))
        }
    }

    /// The next request for the segment asks for the byte at `offset`.
    pub open spec fn asks_for(self, offset: int) -> bool {
        self.request() matches Some((from, to)) && from <= offset <= to
    }

    /// What the answer with this status is worth. A server may answer the request
    /// for a whole file with the file itself; otherwise a plain 200 means that it
    /// did not look at the range.
    pub open spec fn answer(self, status: u16, total: u64) -> AnswerVerdict {
        if status == 200 && !(self.start == 0 && self.end + 1 == total && self.downloaded == 0) {
            AnswerVerdict::RangeIgnored
        } else if !is_success(status) {
            AnswerVerdict::BadStatus
        } else {
            AnswerVerdict::Usable
        }
    }

    /// The range to request next.
    pub fn next_request(&self) -> (r: Option<(u64, u64)>)
        requires
            self.wf(),
        ensures
            r == self.request(),
    {
        if self.downloaded >= self.len() {
            None
        } else {
            Some((self.start + self.downloaded, self.end))
        }
    }

    /// Judges the status of the answer to the request for the segment.
    pub fn judge_answer(&self, status: u16, total: u64) -> (r: AnswerVerdict)
        ensures
            r == self.answer(status, total),
    {
        if status == 200 {
            let whole: bool = self.start == 0 && self.end < total && total - self.end == 1
                && self.downloaded == 0;
            if !whole {
                return AnswerVerdict::RangeIgnored;
            }
        }
        if status < 200 || status >= 300 {
            AnswerVerdict::BadStatus
        } else {
            AnswerVerdict::Usable
        }
    }
}

/// The value of the request header for a range.
pub fn range_header(from: u64, to: u64) -> (s: String)
    ensures
        s@ == "bytes="@ + text::decimal(from as nat) + "-"@ + text::decimal(to as nat),
{
    "bytes=".to_owned().concat(decimal_text(from).as_str()).concat("-").concat(
        decimal_text(to).as_str(),
    )
}

/// The error for an answer that cannot be used; `status_text` and `url` say what
/// was answered to whom.
pub fn answer_error(verdict: AnswerVerdict, status_text: &str, url: &str) -> (r: Result<
    (),
    SegError,
>)
    ensures
        match verdict {
            AnswerVerdict::Usable => r is Ok,
            AnswerVerdict::RangeIgnored => r is Err && r->Err_0 is Retryable
                && r->Err_0->Retryable_0@ == "服务器忽略 Range 请求"@,
            AnswerVerdict::BadStatus => r is Err && r->Err_0 is Retryable
                && r->Err_0->Retryable_0@ == "HTTP "@ + status_text@ + " ("@ + url@ + ")"@,
        },
{
    match verdict {
        AnswerVerdict::Usable => Ok(()),
        AnswerVerdict::RangeIgnored => Err(
            SegError::Retryable("服务器忽略 Range 请求".to_owned()),
        ),
        AnswerVerdict::BadStatus => Err(
            SegError::Retryable(
                "HTTP ".to_owned().concat(status_text).concat(" (").concat(url).concat(")"),
            ),
        ),
    }
}

/// Watches whether data keeps coming: it gives up on a transfer that has been
/// silent for too long, and on one that has been too slow for too long.
#[derive(Clone, Copy, Debug, PartialEq, Eq, Structural)]
pub struct Watchdog {
    /// How long a transfer may be silent.
    pub idle_timeout: TimeSpan,
    /// How many slow samples in a row end a transfer.
    pub slow_samples: u32,
    /// The byte count at the last sample.
    pub last_bytes: u64,
    /// How many samples in a row have been slow.
    pub slow_streak: u32,
}

/// What a tick of the watchdog brings.
#[derive(Clone, Copy, Debug, PartialEq, Eq, Structural)]
pub enum Tick {
    /// Nothing has arrived for too long.
    Silent,
    /// This many bytes have arrived since the last tick.
    Bytes(u64),
}

impl Watchdog {
    /// A slow streak that has not yet ended the transfer.
    pub open spec fn wf(self) -> bool {
        self.slow_streak == 0 || self.slow_streak < self.slow_samples
    }

    /// A watchdog on a transfer that stands at `bytes`.
    pub fn new(idle_timeout: TimeSpan, slow_samples: u32, bytes: u64) -> (w: Self)
        ensures
            w == (Watchdog { idle_timeout, slow_samples, last_bytes: bytes, slow_streak: 0 }),
            w.wf(),
    {
        Watchdog { idle_timeout, slow_samples, last_bytes: bytes, slow_streak: 0 }
    }

    /// Takes a sample: nothing has arrived for `idle`, and the count is at `bytes`.
    pub fn tick(&mut self, idle: TimeSpan, bytes: u64) -> (r: Tick)
        ensures
            r == (if idle.nanos > old(self).idle_timeout.nanos {
                Tick::Silent
            } else if bytes >= old(self).last_bytes {
                Tick::Bytes((bytes - old(self).last_bytes) as u64)
            } else {
                Tick::Bytes(0)
            }),
            *final(self) == (if r == Tick::Silent {
                *old(self)
            } else {
                Watchdog { last_bytes: bytes, ..*old(self) }
            }),
    {
        if idle.exceeds(&self.idle_timeout) {
            return Tick::Silent;
        }
        let since: u64 = bytes.saturating_sub(self.last_bytes);
        self.last_bytes = bytes;
        Tick::Bytes(since)
    }

    /// With one more sample, slow or not.
    pub open spec fn judged(self, slow: bool) -> Watchdog {
        Watchdog {
            slow_streak: if slow {
                (self.slow_streak + 1) as u32
            } else {
                0
            },
            ..self
        }
    }

    /// With the samples `s`, of which `true` ones are slow.
    pub open spec fn after_samples(self, s: Seq<bool>) -> Watchdog
        decreases s.len(),
    {
        if s.len() == 0 {
            self
        } else {
            self.after_samples(s.drop_last()).judged(s.last())
        }
    }

    /// Takes in whether the last sample was slow; tells whether to give up.
    pub fn judge(&mut self, slow: bool) -> (give_up: bool)
        requires
            old(self).wf(),
        ensures
            give_up == (slow && old(self).slow_streak + 1 >= old(self).slow_samples),
            *final(self) == old(self).judged(slow),
            !give_up ==> final(self).wf(),
    {
        if slow {
            self.slow_streak = self.slow_streak + 1;
            self.slow_streak >= self.slow_samples
        } else {
            self.slow_streak = 0;
            false
        }
    }
}

/// The slow streak after the samples `s`, of which `true` ones are slow.
pub open spec fn streak_after(s: Seq<bool>) -> nat
    decreases s.len(),
{
    if s.len() == 0 || !s.last() {
        0
    } else {
        streak_after(s.drop_last()) + 1
    }
}

/// The slow streak reaches `n` exactly when the last `n` samples were slow.
proof fn lemma_streak(s: Seq<bool>, n: nat)
    requires
        n > 0,
    ensures
        streak_after(s) >= n <==> s.len() >= n && (forall|i: int|
            s.len() - n <= i < s.len() ==> #[trigger] s[i]),
        streak_after(s) <= s.len(),
    decreases s.len(),
{
    if s.len() == 0 {
    } else if !s.last() {
        if s.len() >= n {
            assert(!s[s.len() - 1]);
        }
    } else {
        let t = s.drop_last();
        lemma_streak(t, 1);
        if n > 1 {
            lemma_streak(t, (n - 1) as nat);
            if streak_after(s) >= n {
                assert forall|i: int| s.len() - n <= i < s.len() implies #[trigger] s[i] by {
                    if i < t.len() {
                        assert(t[i]);
                    }
                }
            }
            if s.len() >= n && (forall|i: int| s.len() - n <= i < s.len() ==> #[trigger] s[i]) {
                assert forall|i: int| t.len() - (n - 1) <= i < t.len() implies #[trigger] t[i] by {
                    assert(s[i]);
                }
            }
        }
    }
}

/// The watchdog counts the slow streak.
proof fn lemma_watchdog_counts(w: Watchdog, s: Seq<bool>)
    requires
        w.slow_streak == 0,
        s.len() <= u32::MAX,
    ensures
        w.after_samples(s).slow_streak == streak_after(s),
    decreases s.len(),
{
    if s.len() > 0 {
        lemma_watchdog_counts(w, s.drop_last());
        lemma_streak(s.drop_last(), 1);
    }
}

/// The watchdog has seen as many slow samples in a row as end a transfer exactly when
/// the last that many samples were all slow: one that was not starts the count anew.
pub proof fn law_watchdog_counts_last_samples(w: Watchdog, s: Seq<bool>)
    requires
        w.slow_streak == 0,
        w.slow_samples > 0,
        s.len() <= u32::MAX,
    ensures
        w.after_samples(s).slow_streak >= w.slow_samples <==> s.len() >= w.slow_samples && (
        forall|i: int| s.len() - w.slow_samples <= i < s.len() ==> #[trigger] s[i]),
{
    lemma_watchdog_counts(w, s);
    lemma_streak(s, w.slow_samples as nat);
}

/// An attempt at a segment.
#[derive(Clone, Copy, Debug, PartialEq, Eq, Structural)]
pub struct SegmentTransfer {
    /// The segment, with what has been written so far.
    pub seg: Segment,
    /// The watchdog on the attempt.
    pub watchdog: Watchdog,
}

impl SegmentTransfer {
    /// The bounds and the watchdog are in order.
    pub open spec fn wf(self) -> bool {
        self.seg.wf() && self.watchdog.wf()
    }

    /// Begins an attempt at `seg`.
    pub fn new(seg: Segment, idle_timeout: TimeSpan, slow_samples: u32) -> (t: Self)
        requires
            seg.wf(),
        ensures
            t.wf(),
            t.seg == seg,
            t.watchdog == (Watchdog {
                idle_timeout,
                slow_samples,
                last_bytes: seg.downloaded,
                slow_streak: 0,
            }),
    {
        SegmentTransfer { seg, watchdog: Watchdog::new(idle_timeout, slow_samples, seg.downloaded) }
    }

    /// Takes in what happened; tells how the attempt ended, or nothing while it
    /// goes on. It succeeds only at the end of a stream that brought every byte of
    /// the segment and no more. What a stream brought that holds more than was asked for is
    /// not trusted: nothing of the segment counts then.
    pub fn on_event(&mut self, event: TransferEvent) -> (r: Option<Result<(), SegError>>)
        requires
            old(self).wf(),
        ensures
            final(self).wf(),
            final(self).watchdog == old(self).watchdog,
            final(self).seg == (match event {
                TransferEvent::Chunk(n) => match old(self).seg.with_piece(n) {
                    Some(g) => g,
                    None => old(self).seg.rewound(),
                },
                _ => old(self).seg,
            }),
            match event {
                TransferEvent::Chunk(n) => if old(self).seg.with_piece(n) is Some {
                    r is None
                } else {
                    retry_with(
                        r,
                        "流超出范围: 期望 "@ + text::decimal(old(self).seg.size() as nat),
                    )
                },
                TransferEvent::NetworkError(e) => retry_with(r, "网络中断: "@ + e@),
                TransferEvent::DiskError(e) => retry_with(r, e@),
                TransferEvent::EndOfStream => if old(self).seg.is_finished() {
                    r == Some(Ok::<(), SegError>(()))
                } else {
                    retry_with(
                        r,
                        "流提前结束: 已收 "@ + text::decimal(old(self).seg.downloaded as nat)
                            + " / 期望 "@ + text::decimal(old(self).seg.size() as nat),
                    )
                },
                TransferEvent::Cancelled => r == Some(Err::<(), SegError>(SegError::Cancelled)),
            },
    {
        match event {
            TransferEvent::Chunk(n) => if self.seg.fits(n) {
                self.seg.record(n);
                None
            } else {
                self.seg.rewind();
                Some(
                    Err(
                        SegError::Retryable(
                            "流超出范围: 期望 ".to_owned().concat(
                                decimal_text(self.seg.len()).as_str(),
                            ),
                        ),
                    ),
                )
            },
            TransferEvent::NetworkError(e) => Some(
                Err(SegError::Retryable("网络中断: ".to_owned().concat(e.as_str()))),
            ),
            TransferEvent::DiskError(e) => Some(Err(SegError::Retryable(e))),
            TransferEvent::EndOfStream => if self.seg.finished() {
                Some(Ok(()))
            } else {
                Some(
                    Err(
                        SegError::Retryable(
                            "流提前结束: 已收 ".to_owned().concat(
                                decimal_text(self.seg.downloaded).as_str(),
                            ).concat(" / 期望 ").concat(decimal_text(self.seg.len()).as_str()),
                        ),
                    ),
                )
            },
            TransferEvent::Cancelled => Some(Err(SegError::Cancelled)),
        }
    }

    /// Takes a sample after `idle` without data. The bytes since the last one are
    /// returned, for the smoothed speed; the attempt ends if it was silent for too
    /// long.
    pub fn sample(&mut self, idle: TimeSpan) -> (r: Result<u64, SegError>)
        requires
            old(self).wf(),
        ensures
            final(self).wf(),
            final(self).seg == old(self).seg,
            final(self).watchdog == (if idle.nanos > old(self).watchdog.idle_timeout.nanos {
                old(self).watchdog
            } else {
                Watchdog { last_bytes: old(self).seg.downloaded, ..old(self).watchdog }
            }),
            if idle.nanos > old(self).watchdog.idle_timeout.nanos {
                r is Err && r->Err_0 is Retryable && r->Err_0->Retryable_0@
                    == "看门狗: 无数据超过阈值"@
            } else {
                r is Ok && r->Ok_0 == (if old(self).seg.downloaded >= old(
                    self,
                ).watchdog.last_bytes {
                    old(self).seg.downloaded - old(self).watchdog.last_bytes
                } else {
                    0
                })
            },
    {
        match self.watchdog.tick(idle, self.seg.downloaded) {
            Tick::Silent => Err(SegError::Retryable("看门狗: 无数据超过阈值".to_owned())),
            Tick::Bytes(n) => Ok(n),
        }
    }

    /// Takes in whether the last sample was slow. The attempt ends with an error
    /// when as many samples in a row as the settings allow have been.
    pub fn judge_speed(&mut self, slow: bool) -> (r: Result<(), SegError>)
        requires
            old(self).wf(),
        ensures
            r is Err <==> slow && old(self).watchdog.slow_streak + 1 >= old(
                self,
            ).watchdog.slow_samples,
            r is Err ==> r->Err_0 is Retryable && r->Err_0->Retryable_0@
                == "看门狗: 速度持续低于平滑速度"@,
            final(self).seg == old(self).seg,
            final(self).watchdog == old(self).watchdog.judged(slow),
            r is Ok ==> final(self).wf(),
    {
        if self.watchdog.judge(slow) {
            Err(SegError::Retryable("看门狗: 速度持续低于平滑速度".to_owned()))
        } else {
            Ok(())
        }
    }
}

/// The attempt ended with a retryable error of this text.
pub open spec fn retry_with(r: Option<Result<(), SegError>>, message: Seq<char>) -> bool {
    r matches Some(Err(SegError::Retryable(m))) && m@ == message
}

/// An attempt at a whole file as one stream.
#[derive(Clone, Copy, Debug, PartialEq, Eq, Structural)]
pub struct StreamTransfer {
    /// The size of the file, or zero where it is not known.
    pub total: u64,
    /// The bytes that this attempt has brought.
    pub received: u64,
    /// How long the stream may be silent.
    pub idle_timeout: TimeSpan,
}

impl StreamTransfer {
    /// Begins an attempt, with nothing received.
    pub fn new(total: u64, idle_timeout: TimeSpan) -> (t: Self)
        ensures
            t == (StreamTransfer { total, received: 0, idle_timeout }),
    {
        StreamTransfer { total, received: 0, idle_timeout }
    }

    /// Judges the status of the answer.
    pub fn judge_answer(status: u16, url: &str) -> (r: Result<(), DownloadError>)
        ensures
            is_success(status) ==> r is Ok,
            !is_success(status) ==> r is Err && is_status_error(r->Err_0, status, url@),
    {
        if status < 200 || status >= 300 {
            Err(DownloadError::HttpStatus { status, url: url.to_owned() })
        } else {
            Ok(())
        }
    }

    /// Takes in what happened; tells how the attempt ended, or nothing while it
    /// goes on. A stream that ends with another number of bytes than the file is
    /// known to have is incomplete.
    pub fn on_event(&mut self, event: TransferEvent) -> (r: Option<Result<(), DownloadError>>)
        ensures
            *final(self) == (match event {
                TransferEvent::Chunk(n) => StreamTransfer {
                    received: old(self).received.wrapping_add(n),
                    ..*old(self)
                },
                _ => *old(self),
            }),
            match event {
                TransferEvent::Chunk(n) => r is None,
                TransferEvent::NetworkError(e) => r == Some(
                    Err::<(), DownloadError>(DownloadError::Http(e)),
                ),
                TransferEvent::DiskError(e) => r == Some(
                    Err::<(), DownloadError>(DownloadError::Io(e)),
                ),
                TransferEvent::EndOfStream => if old(self).total > 0 && old(self).received != old(
                    self,
                ).total {
                    r == Some(
                        Err::<(), DownloadError>(
                            DownloadError::Incomplete {
                                expected: old(self).total,
                                actual: old(self).received,
                            },
                        ),
                    )
                } else {
                    r == Some(Ok::<(), DownloadError>(()))
                },
                TransferEvent::Cancelled => r == Some(
                    Err::<(), DownloadError>(DownloadError::Cancelled),
                ),
            },
    {
        match event {
            TransferEvent::Chunk(n) => {
                self.received = self.received.wrapping_add(n);
                None
            },
            TransferEvent::NetworkError(e) => Some(Err(DownloadError::Http(e))),
            TransferEvent::DiskError(e) => Some(Err(DownloadError::Io(e))),
            TransferEvent::EndOfStream => if self.total > 0 && self.received != self.total {
                Some(
                    Err(
                        DownloadError::Incomplete { expected: self.total, actual: self.received },
                    ),
                )
            } else {
                Some(Ok(()))
            },
            TransferEvent::Cancelled => Some(Err(DownloadError::Cancelled)),
        }
    }

    /// Takes in that nothing has arrived for `idle`; the attempt ends if that is
    /// too long.
    pub fn sample(&self, idle: TimeSpan) -> (r: Result<(), DownloadError>)
        ensures
            if idle.nanos > self.idle_timeout.nanos {
                r is Err && r->Err_0 is Exhausted && r->Err_0->Exhausted_0@
                    == "看门狗: 流式下载无数据超过阈值"@
            } else {
                r is Ok
            },
    {
        if idle.exceeds(&self.idle_timeout) {
            Err(DownloadError::Exhausted("看门狗: 流式下载无数据超过阈值".to_owned()))
        } else {
            Ok(())
        }
    }
}

/// `e` reports that `url` was answered with `status`.
pub open spec fn is_status_error(e: DownloadError, status: u16, url: Seq<char>) -> bool {
    e matches DownloadError::HttpStatus { status: s, url: u } && s == status && u@ == url
}

/// Checks that the finished partial file has the size of the whole file.
pub fn check_length(expected: u64, actual: u64) -> (r: Result<(), DownloadError>)
    ensures
        r == (if actual == expected {
            Ok::<(), DownloadError>(())
        } else {
            Err::<(), DownloadError>(DownloadError::Incomplete { expected, actual })
        }),
{
    if actual != expected {
        Err(DownloadError::Incomplete { expected, actual })
    } else {
        Ok(())
    }
}

/// A request covers exactly the bytes of the segment that are still missing, and
/// none that another segment is responsible for.
pub proof fn law_request_is_what_is_missing(s: Segment, offset: int)
    requires
        s.wf(),
    ensures
        s.asks_for(offset) <==> s.contains(offset) && !s.has_written(offset),
        s.request() is None <==> s.is_finished(),
{
}

/// The first digit of a status tells success from an error of the server.
pub proof fn law_status_classes(status: u16)
    ensures
        is_success(status) <==> status / 100 == 2,
        is_server_error(status) <==> status / 100 == 5,
{
}

/// An answer is used exactly when it reports success and brings what was asked for: a partial
/// answer does, and a plain 200, which brings the whole file, only where that was
/// asked for. Any other 200 has ignored the range.
pub proof fn law_answers_bring_what_was_asked(s: Segment, status: u16, total: u64)
    requires
        s.wf(),
        s.end < total,
    ensures
        s.answer(status, total) == AnswerVerdict::Usable <==> status / 100 == 2 && (status == 200
            ==> s.request() == Some((0u64, (total - 1) as u64))),
        s.answer(status, total) == AnswerVerdict::RangeIgnored <==> status == 200 && s.request()
            != Some((0u64, (total - 1) as u64)),
        s.answer(status, total) == AnswerVerdict::BadStatus <==> status / 100 != 2,
{
}

/// A request goes from the first byte that has not been written to the end of the segment.
pub proof fn law_request_bounds(s: Segment)
    requires
        s.wf(),
    ensures
        s.request() matches Some((from, to)) ==> from == s.start + s.downloaded && to == s.end
            && from <= to,
        s.downloaded <= s.end - s.start <==> s.request() is Some,
{
}

/// A slow sample makes the streak longer by one, any other ends it; nothing else about the
/// watchdog changes.
pub proof fn law_one_fast_sample_ends_the_streak(w: Watchdog, slow: bool)
    requires
        w.slow_streak < u32::MAX,
    ensures
        !slow ==> w.judged(slow).slow_streak == 0,
        slow ==> w.judged(slow).slow_streak == w.slow_streak + 1,
        w.judged(slow).idle_timeout == w.idle_timeout,
        w.judged(slow).slow_samples == w.slow_samples,
        w.judged(slow).last_bytes == w.last_bytes,
{
}

/// `e` tells a status only if it was that status, of that URL.
pub proof fn law_status_errors_are_told(e: DownloadError, status: u16, url: Seq<char>)
    ensures
        is_status_error(e, status, url) <==> e is HttpStatus && e->HttpStatus_status == status
            && e->HttpStatus_url@ == url,
{
}

/// An attempt that may be repeated ends with an error that says so, and with this text.
pub proof fn law_retries_are_told_why(r: Option<Result<(), SegError>>, message: Seq<char>)
    ensures
        retry_with(r, message) <==> r is Some && r->0 is Err && r->0->Err_0 is Retryable
            && r->0->Err_0->Retryable_0@ == message,
{
}

} // verus!
