//! Planning a download: what a server says of the file, whether it is fetched in
//! segments or as one stream, and when all of it is fetched again.
use vstd::prelude::*;

use crate::error::DownloadError;
use crate::retry;
use crate::retry::UrlRing;
use crate::text;
use crate::text::decimal_text;
use crate::transfer;

verus! {

/// What a server says of a file.
#[derive(Clone, Copy, Debug, PartialEq, Eq, Structural)]
pub struct ProbeResult {
    /// The size, where it is known.
    pub total: Option<u64>,
    /// Whether ranges are served.
    pub range_ok: bool,
}

/// What the answer to a `HEAD` request is worth.
#[derive(Clone, Debug, PartialEq, Eq)]
pub enum HeadVerdict {
    /// It says what was asked.
    Known(ProbeResult),
    /// The server has an error of its own.
    Fail(DownloadError),
    /// It says nothing: a range of one byte is to be requested.
    AskRange,
}

/// Judges the answer to a `HEAD` request for `url`: its status, or nothing where the
/// request failed, and what its headers state.
pub fn judge_head(
    status: Option<u16>,
    length: Option<u64>,
    ranges: bool,
    url: &str,
) -> (r: HeadVerdict)
    ensures
        match status {
            Some(s) => if transfer::is_success(s) {
                r == HeadVerdict::Known(ProbeResult { total: length, range_ok: ranges })
            } else if transfer::is_server_error(s) {
                r matches HeadVerdict::Fail(e) && transfer::is_status_error(e, s, url@)
            } else {
                r == HeadVerdict::AskRange
            },
            None => r == HeadVerdict::AskRange,
        },
{
    match status {
        Some(s) => {
            if 200 <= s && s < 300 {
                HeadVerdict::Known(ProbeResult { total: length, range_ok: ranges })
            } else if 500 <= s && s < 600 {
                HeadVerdict::Fail(DownloadError::HttpStatus { status: s, url: url.to_owned() })
            } else {
                HeadVerdict::AskRange
            }
        },
        None => HeadVerdict::AskRange,
    }
}

/// Judges the answer to the request for the first byte of `url`: a partial answer
/// shows that ranges are served and states the size of the whole file.
pub fn judge_first_byte(
    status: u16,
    range_total: Option<u64>,
    length: Option<u64>,
    url: &str,
) -> (r: Result<ProbeResult, DownloadError>)
    ensures
        if status == 206 {
            r == Ok::<ProbeResult, DownloadError>(
                ProbeResult { total: range_total, range_ok: true },
            )
        } else if transfer::is_success(status) {
            r == Ok::<ProbeResult, DownloadError>(ProbeResult { total: length, range_ok: false })
        } else {
            r is Err && transfer::is_status_error(r->Err_0, status, url@)
        },
{
    if status == 206 {
        Ok(ProbeResult { total: range_total, range_ok: true })
    } else if 200 <= status && status < 300 {
        Ok(ProbeResult { total: length, range_ok: false })
    } else {
        Err(DownloadError::HttpStatus { status, url: url.to_owned() })
    }
}

/// Asking one URL after the other.
#[derive(Clone, Copy, Debug, PartialEq, Eq, Structural)]
pub struct Probing {
    /// How many URLs have not been asked yet, the current one included.
    pub left: usize,
}

impl Probing {
    /// All URLs of `ring` are to be asked, if need be.
    pub fn new(ring: &UrlRing) -> (p: Self)
        ensures
            p.left == ring@.len(),
    {
        Probing { left: ring.urls.len() }
    }

    /// Takes in that asking the current URL failed. Either the next one is now current,
    /// or there is none left and the error is returned.
    pub fn failed(&mut self, ring: &mut UrlRing, error: DownloadError) -> (r: Option<
        DownloadError,
    >)
        requires
            old(ring).wf(),
            1 <= old(self).left <= old(ring)@.len(),
        ensures
            final(ring).wf(),
            final(self).left == old(self).left - 1,
            final(ring)@ == (if old(ring)@.len() >= 2 {
                retry::turned(old(ring)@)
            } else {
                old(ring)@
            }),
            r == (if final(self).left == 0 {
                Some(error)
            } else {
                None
            }),
    {
        self.left = self.left - 1;
        match ring.mirror_url() {
            Some(_) => {
                if self.left == 0 {
                    Some(error)
                } else {
                    None
                }
            },
            None => Some(error),
        }
    }
}

/// The ring once its first `n` URLs have been asked in vain.
pub open spec fn asked(urls: Seq<String>, n: nat) -> Seq<String>
    decreases n,
{
    if n == 0 {
        urls
    } else if urls.len() >= 2 {
        retry::turned(asked(urls, (n - 1) as nat))
    } else {
        asked(urls, (n - 1) as nat)
    }
}

/// Each URL is asked once, in order; if none answers the ring is in the end as it was.
pub proof fn law_each_url_is_asked_once(urls: Seq<String>, n: nat)
    requires
        urls.len() > 0,
    ensures
        n < urls.len() ==> asked(urls, n)[0] == urls[n as int],
        asked(urls, urls.len()) == urls,
{
    if urls.len() >= 2 {
        lemma_asked_turns(urls, n);
        lemma_asked_turns(urls, urls.len());
        retry::law_mirrors_take_turns(urls, n);
        if n < urls.len() {
            vstd::arithmetic::div_mod::lemma_small_mod(n, urls.len());
        }
    } else {
        assert(asked(urls, 0) == urls);
        assert(asked(urls, 1) == asked(urls, 0));
    }
}

/// Asking in vain turns the ring.
proof fn lemma_asked_turns(urls: Seq<String>, n: nat)
    requires
        urls.len() >= 2,
    ensures
        asked(urls, n) == retry::turned_by(urls, n),
    decreases n,
{
    if n > 0 {
        lemma_asked_turns(urls, (n - 1) as nat);
    }
}

/// What is logged when a URL could not be asked.
pub fn probe_failed_message(url: &str, error: &DownloadError) -> (s: String)
    ensures
        s@ == "探测 "@ + url@ + " 失败: "@ + error.text(),
{
    "探测 ".to_owned().concat(url).concat(" 失败: ").concat(error.message().as_str())
}

/// What is logged when a server has been asked.
pub fn probe_done_message(probe: &ProbeResult) -> (s: String)
    ensures
        s@ == "探测完成: total="@ + (match probe.total {
            Some(t) => "Some("@ + text::decimal(t as nat) + ")"@,
            None => "None"@,
        }) + ", range="@ + (if probe.range_ok {
            "true"@
        } else {
            "false"@
        }),
{
    let total: String = match probe.total {
        Some(t) => "Some(".to_owned().concat(decimal_text(t).as_str()).concat(")"),
        None => "None".to_owned(),
    };
    let range: &str = if probe.range_ok {
        "true"
    } else {
        "false"
    };
    "探测完成: total=".to_owned().concat(total.as_str()).concat(", range=").concat(range)
}

/// How a file is fetched.
#[derive(Clone, Copy, Debug, PartialEq, Eq, Structural)]
pub enum RunPlan {
    /// In segments; the size is known and not zero.
    Ranged { total: u64 },
    /// As one stream; a size of zero stands for one that is not known.
    Streamed { total: u64 },
}

/// The plan for a download whose server has been asked: in segments where the size is
/// known and ranges are served, else as one stream.
pub open spec fn probed_plan(probe: ProbeResult) -> RunPlan {
    match probe.total {
        Some(t) => if t > 0 && probe.range_ok {
            RunPlan::Ranged { total: t }
        } else {
            RunPlan::Streamed { total: t }
        },
        None => RunPlan::Streamed { total: 0 },
    }
}

/// The plan for a download from a host that need not be asked for ranges again, given the
/// size of the file where that has been asked: a large one is fetched in segments where
/// the host serves ranges, any other as one stream.
pub open spec fn cached_plan(range_ok: bool, length: Option<u64>, split_threshold: u64) -> RunPlan {
    match length {
        Some(t) => if range_ok && t > split_threshold {
            RunPlan::Ranged { total: t }
        } else {
            RunPlan::Streamed { total: t }
        },
        None => RunPlan::Streamed { total: 0 },
    }
}

/// Plans a download after its server has been asked.
pub fn plan_probed(probe: &ProbeResult) -> (r: RunPlan)
    ensures
        r == probed_plan(*probe),
{
    match probe.total {
        Some(t) => {
            if t > 0 && probe.range_ok {
                RunPlan::Ranged { total: t }
            } else {
                RunPlan::Streamed { total: t }
            }
        },
        None => RunPlan::Streamed { total: 0 },
    }
}

/// Plans a download from a host that need not be asked again.
pub fn plan_cached(range_ok: bool, length: Option<u64>, split_threshold: u64) -> (r: RunPlan)
    ensures
        r == cached_plan(range_ok, length, split_threshold),
{
    match length {
        Some(t) => {
            if range_ok && t > split_threshold {
                RunPlan::Ranged { total: t }
            } else {
                RunPlan::Streamed { total: t }
            }
        },
        None => RunPlan::Streamed { total: 0 },
    }
}

/// A file that is large enough for several segments is planned alike whether its host,
/// which serves ranges, has just been asked or was asked before.
pub proof fn law_known_hosts_lose_no_speed(total: u64, split_threshold: u64)
    requires
        total > split_threshold,
    ensures
        probed_plan(ProbeResult { total: Some(total), range_ok: true }) == cached_plan(
            true,
            Some(total),
            split_threshold,
        ),
{
}

/// What to do after a run of a whole download.
#[derive(Clone, Copy, Debug, PartialEq, Eq, Structural)]
pub enum AfterRun {
    /// Return the result.
    Return,
    /// Delete the partial file, then return the result.
    DiscardAndReturn,
    /// Delete the partial file, log it, and download everything once more.
    DiscardAndRepeat,
}

/// Whether everything has been downloaded a second time.
#[derive(Clone, Copy, Debug, PartialEq, Eq, Structural)]
pub struct Redownload {
    pub done: bool,
}

/// The result of a run is a digest that does not match.
pub open spec fn is_mismatch(result: Result<(), DownloadError>) -> bool {
    result matches Err(DownloadError::ChecksumMismatch { .. })
}

impl Redownload {
    /// Nothing has been downloaded twice.
    pub fn new() -> (r: Self)
        ensures
            r == (Redownload { done: false }),
    {
        Redownload { done: false }
    }

    /// Decides what to do after a run ended with `result`. A file with the wrong digest
    /// is never kept, and is downloaded once more the first time.
    pub fn after(&mut self, result: &Result<(), DownloadError>) -> (r: AfterRun)
        ensures
            r == (if !is_mismatch(*result) {
                AfterRun::Return
            } else if old(self).done {
                AfterRun::DiscardAndReturn
            } else {
                AfterRun::DiscardAndRepeat
            }),
            final(self).done == (old(self).done || is_mismatch(*result)),
    {
        match result {
            Err(DownloadError::ChecksumMismatch { .. }) => {
                if self.done {
                    AfterRun::DiscardAndReturn
                } else {
                    self.done = true;
                    AfterRun::DiscardAndRepeat
                }
            },
            _ => AfterRun::Return,
        }
    }
}

/// What is logged when everything is downloaded once more.
pub fn redownload_message() -> (s: String)
    ensures
        s@ == "SHA-256 校验失败，删除 .part 自动重下"@,
{
    "SHA-256 校验失败，删除 .part 自动重下".to_owned()
}

/// A file is fetched in segments exactly when its server serves ranges and states a size that
/// is not zero; either way the stated size is what the file must have, and none counts as
/// zero.
pub proof fn law_ranges_need_a_size(probe: ProbeResult)
    ensures
        probed_plan(probe) is Ranged <==> probe.range_ok && probe.total is Some && probe.total->0
            > 0,
        probed_plan(probe) matches RunPlan::Ranged { total } ==> probe.total == Some(total),
        probed_plan(probe) matches RunPlan::Streamed { total } ==> total == (match probe.total {
            Some(t) => t,
            None => 0,
        }),
{
}

/// From a known host a file is fetched in segments exactly when the host serves ranges and the
/// stated size is above the threshold; either way the stated size is what the file must have,
/// and none counts as zero.
pub proof fn law_known_hosts_serve_large_files_in_segments(
    range_ok: bool,
    length: Option<u64>,
    split_threshold: u64,
)
    ensures
        cached_plan(range_ok, length, split_threshold) is Ranged <==> range_ok && length is Some
            && length->0 > split_threshold,
        cached_plan(range_ok, length, split_threshold) matches RunPlan::Ranged { total }
            ==> length == Some(total),
        cached_plan(range_ok, length, split_threshold) matches RunPlan::Streamed { total } ==> total
            == (match length {
            Some(t) => t,
            None => 0,
        }),
{
}

/// Only a wrong digest is a reason to fetch everything again.
pub proof fn law_only_a_wrong_digest_is_a_mismatch(result: Result<(), DownloadError>)
    ensures
        is_mismatch(result) <==> result is Err && result->Err_0 is ChecksumMismatch,
{
}

} // verus!
