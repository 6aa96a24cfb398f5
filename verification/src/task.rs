//! Tasks, their states, the settings they run under, and the events they cause.
use vstd::prelude::*;

use crate::hex;
use crate::hex::parse_hex_sha256;

verus! {

/// The id of a task.
pub type TaskId = u64;

/// Where a task stands.
#[derive(Clone, Copy, Debug, PartialEq, Eq, Structural)]
pub enum TaskState {
    /// In the queue, waiting for a free worker.
    Queued,
    /// Being downloaded.
    Downloading,
    /// Paused; the partial file is kept and the task can be resumed.
    Paused,
    /// Done; the file has been moved to its destination.
    Completed,
    /// Failed: retries and mirrors are used up.
    Failed,
    /// Cancelled; the partial file is deleted.
    Cancelled,
}

/// How serious a log event is.
#[derive(Clone, Copy, Debug, PartialEq, Eq, Structural)]
pub enum LogLevel {
    Debug,
    Info,
    Warn,
    Error,
}

/// Something that subscribers are told.
#[derive(Clone, Debug, PartialEq, Eq)]
pub enum DownloadEvent {
    /// A task changed its state; a failure comes with its description.
    StateChanged { id: TaskId, state: TaskState, detail: Option<String> },
    /// How far a task has come, at what speed in bytes per second.
    Progress { id: TaskId, downloaded: u64, total: u64, speed_bps: u64, active_segments: u32 },
    /// How far all tasks together have come.
    GlobalProgress { active_tasks: u32, downloaded: u64, total: u64 },
    /// A message: a retry, a rebuilt segment, a fallback.
    Log { level: LogLevel, message: String },
}

/// A length of time, in nanoseconds.
#[derive(Clone, Copy, Debug, PartialEq, Eq, Structural)]
pub struct TimeSpan {
    pub nanos: u128,
}

impl TimeSpan {
    /// `n` seconds.
    pub fn from_secs(n: u64) -> (t: Self)
        ensures
            t.nanos == n * 1_000_000_000,
    {
        TimeSpan { nanos: n as u128 * 1_000_000_000 }
    }

    /// `n` milliseconds.
    pub fn from_millis(n: u64) -> (t: Self)
        ensures
            t.nanos == n * 1_000_000,
    {
        TimeSpan { nanos: n as u128 * 1_000_000 }
    }

    /// The whole milliseconds in it.
    pub fn as_millis(&self) -> (n: u128)
        ensures
            n == self.nanos / 1_000_000,
    {
        self.nanos / 1_000_000
    }

    /// Whether it is longer than `other`.
    pub fn exceeds(&self, other: &TimeSpan) -> (b: bool)
        ensures
            b == (self.nanos > other.nanos),
    {
        self.nanos > other.nanos
    }
}

/// The settings that all tasks share. The factor below which a speed counts as
/// too slow is a floating-point number and is kept by whoever samples the speed.
#[derive(Clone, Debug, PartialEq, Eq)]
pub struct DownloadOptions {
    /// The user agent.
    pub user_agent: String,
    /// Request headers; a task's own header of the same name takes precedence.
    pub headers: Vec<(String, String)>,
    /// How long one request may take.
    pub timeout: TimeSpan,
    /// How long it may take to connect.
    pub connect_timeout: TimeSpan,
    /// How often a segment is retried before the next mirror or the fallback.
    pub max_retries: u32,
    /// The pause before the first retry; it doubles with each further one.
    pub retry_base_delay: TimeSpan,
    /// The size that segments are cut to.
    pub segment_size: u64,
    /// How many segments of a task may be fetched at once.
    pub max_segments: u32,
    /// Up to this size a file is fetched in one piece.
    pub split_threshold: u64,
    /// A segment is rebuilt when no data has arrived for longer than this.
    pub watchdog_idle_timeout: TimeSpan,
    /// A segment is rebuilt after this many slow samples in a row.
    pub watchdog_slow_samples: u32,
    /// How often it is considered to cut a segment in two.
    pub split_sample_interval: TimeSpan,
    /// How often the progress of a task is reported.
    pub progress_throttle: TimeSpan,
    /// How often the progress of all tasks is reported.
    pub global_progress_interval: TimeSpan,
    /// Try HTTP/3 first.
    pub enable_http3: bool,
    /// Go back to HTTP/2 when an HTTP/3 connection fails.
    pub http3_fallback: bool,
    /// A proxy to use; it is ignored unless it is an absolute URL.
    pub proxy: Option<String>,
    /// Use no proxy at all, not even that of the system.
    pub no_proxy: bool,
    /// Accept invalid TLS certificates.
    pub ignore_ssl_certs: bool,
}

impl Default for DownloadOptions {
    fn default() -> (o: Self)
        ensures
            o.user_agent@ == "qomicex-downloader/0.1.0"@,
            o.headers@.len() == 0,
            o.timeout.nanos == 60_000_000_000,
            o.connect_timeout.nanos == 15_000_000_000,
            o.max_retries == 5,
            o.retry_base_delay.nanos == 500_000_000,
            o.segment_size == 8 * 1024 * 1024,
            o.max_segments == 16,
            o.split_threshold == 10 * 1024 * 1024,
            o.watchdog_idle_timeout.nanos == 30_000_000_000,
            o.watchdog_slow_samples == 5,
            o.split_sample_interval.nanos == 2_000_000_000,
            o.progress_throttle.nanos == 150_000_000,
            o.global_progress_interval.nanos == 250_000_000,
            !o.enable_http3,
            o.http3_fallback,
            o.proxy is None,
            !o.no_proxy,
            !o.ignore_ssl_certs,
    {
        DownloadOptions {
            user_agent: "qomicex-downloader/0.1.0".to_owned(),
            headers: Vec::new(),
            timeout: TimeSpan::from_secs(60),
            connect_timeout: TimeSpan::from_secs(15),
            max_retries: 5,
            retry_base_delay: TimeSpan::from_millis(500),
            segment_size: 8 * 1024 * 1024,
            max_segments: 16,
            split_threshold: 10 * 1024 * 1024,
            watchdog_idle_timeout: TimeSpan::from_secs(30),
            watchdog_slow_samples: 5,
            split_sample_interval: TimeSpan::from_secs(2),
            progress_throttle: TimeSpan::from_millis(150),
            global_progress_interval: TimeSpan::from_millis(250),
            enable_http3: false,
            http3_fallback: true,
            proxy: None,
            no_proxy: false,
            ignore_ssl_certs: false,
        }
    }
}

/// A path of a file: the directory it is in and its name there. A path that ends
/// in no name, such as a root directory, has none.
#[derive(Clone, Debug, PartialEq, Eq)]
pub struct DestPath {
    pub dir: String,
    pub file_name: Option<String>,
}

impl DestPath {
    /// The name of the partial file beside a file with this name.
    pub open spec fn part_name(self) -> Seq<char> {
        (match self.file_name {
            Some(name) => name@,
            None => "download"@,
        }) + ".part"@
    }
}

/// One download. What it does not set is taken from the shared settings.
#[derive(Clone, Debug, PartialEq, Eq)]
pub struct DownloadTask {
    /// Where to download from.
    pub url: String,
    /// Where to put the file; while it is incomplete it has `.part` appended.
    pub dest: DestPath,
    /// Request headers; they take precedence over the shared ones.
    pub headers: Vec<(String, String)>,
    /// Where else to download from, in this order, once retries are used up.
    pub mirror_urls: Vec<String>,
    /// Takes precedence over `DownloadOptions::max_segments`.
    pub max_segments: Option<u32>,
    /// Takes precedence over `DownloadOptions::max_retries`.
    pub max_retries: Option<u32>,
    /// Takes precedence over `DownloadOptions::segment_size`.
    pub segment_size: Option<u64>,
    /// The SHA-256 digest that the file must have.
    pub sha256: Option<[u8; 32]>,
    /// The id, given by the manager.
    pub id: TaskId,
}

/// The settings that one task runs under.
#[derive(Clone, Copy, Debug, PartialEq, Eq, Structural)]
pub struct TransferLimits {
    pub max_segments: u32,
    pub max_retries: u32,
    pub segment_size: u64,
    pub split_threshold: u64,
}

impl DownloadTask {
    /// A task that sets nothing but its source and destination.
    pub fn new(url: String, dest: DestPath) -> (t: Self)
        ensures
            t.url == url,
            t.dest == dest,
            t.headers@.len() == 0,
            t.mirror_urls@.len() == 0,
            t.max_segments is None,
            t.max_retries is None,
            t.segment_size is None,
            t.sha256 is None,
            t.id == 0,
    {
        DownloadTask {
            url,
            dest,
            headers: Vec::new(),
            mirror_urls: Vec::new(),
            max_segments: None,
            max_retries: None,
            segment_size: None,
            sha256: None,
            id: 0,
        }
    }

    /// Adds a request header.
    pub fn with_header(self, name: String, value: String) -> (t: Self)
        ensures
            t.headers@ == self.headers@.push((name, value)),
            t == (DownloadTask { headers: t.headers, ..self }),
    {
        let mut t = self;
        t.headers.push((name, value));
        t
    }

    /// Sets the mirrors.
    pub fn with_mirrors(self, urls: Vec<String>) -> (t: Self)
        ensures
            t == (DownloadTask { mirror_urls: urls, ..self }),
    {
        let mut t = self;
        t.mirror_urls = urls;
        t
    }

    /// Sets how many segments may be fetched at once.
    pub fn with_max_segments(self, n: u32) -> (t: Self)
        ensures
            t == (DownloadTask { max_segments: Some(n), ..self }),
    {
        let mut t = self;
        t.max_segments = Some(n);
        t
    }

    /// Sets how often a segment is retried.
    pub fn with_max_retries(self, n: u32) -> (t: Self)
        ensures
            t == (DownloadTask { max_retries: Some(n), ..self }),
    {
        let mut t = self;
        t.max_retries = Some(n);
        t
    }

    /// Sets the size that segments are cut to.
    pub fn with_segment_size(self, n: u64) -> (t: Self)
        ensures
            t == (DownloadTask { segment_size: Some(n), ..self }),
    {
        let mut t = self;
        t.segment_size = Some(n);
        t
    }

    /// Sets the digest that the file must have.
    pub fn with_sha256(self, digest: [u8; 32]) -> (t: Self)
        ensures
            t == (DownloadTask { sha256: Some(digest), ..self }),
    {
        let mut t = self;
        t.sha256 = Some(digest);
        t
    }

    /// Sets the digest that the file must have, from its hexadecimal text. A text
    /// that is no digest leaves the file unchecked.
    pub fn with_sha256_hex(self, hex: &str) -> (t: Self)
        ensures
            t == (DownloadTask { sha256: t.sha256, ..self }),
            match t.sha256 {
                Some(d) => hex::parsed_digest(hex@) == Some(d@),
                None => hex::parsed_digest(hex@) is None,
            },
    {
        let mut t = self;
        t.sha256 = parse_hex_sha256(hex);
        t
    }

    /// The path of the partial file: in the same directory, with `.part` appended
    /// to the name.
    pub fn part_path(&self) -> (p: DestPath)
        ensures
            p.dir == self.dest.dir,
            p.file_name is Some,
            p.file_name->0@ == self.dest.part_name(),
    {
        let name: String = match &self.dest.file_name {
            Some(name) => name.clone(),
            None => "download".to_owned(),
        };
        DestPath { dir: self.dest.dir.clone(), file_name: Some(name.concat(".part")) }
    }

    /// The settings that the task runs under: its own where it has them, else the
    /// shared ones.
    pub open spec fn limits_under(self, options: DownloadOptions) -> TransferLimits {
        TransferLimits {
            max_segments: match self.max_segments {
                Some(n) => n,
                None => options.max_segments,
            },
            max_retries: match self.max_retries {
                Some(n) => n,
                None => options.max_retries,
            },
            segment_size: match self.segment_size {
                Some(n) => n,
                None => options.segment_size,
            },
            split_threshold: options.split_threshold,
        }
    }

    /// The settings that the task runs under.
    pub fn limits(&self, options: &DownloadOptions) -> (l: TransferLimits)
        ensures
            l == self.limits_under(*options),
    {
        TransferLimits {
            max_segments: match self.max_segments {
                Some(n) => n,
                None => options.max_segments,
            },
            max_retries: match self.max_retries {
                Some(n) => n,
                None => options.max_retries,
            },
            segment_size: match self.segment_size {
                Some(n) => n,
                None => options.segment_size,
            },
            split_threshold: options.split_threshold,
        }
    }

    /// The URLs to download from: the task's own first, then the mirrors in order.
    pub fn urls(&self) -> (r: Vec<String>)
        ensures
            r@ == seq![self.url] + self.mirror_urls@,
    {
        let mut r: Vec<String> = Vec::new();
        r.push(self.url.clone());
        let n: usize = self.mirror_urls.len();
        let mut i: usize = 0;
        while i < n
            invariant
                0 <= i <= n,
                n == self.mirror_urls@.len(),
                r@ == seq![self.url] + self.mirror_urls@.take(i as int),
            decreases n - i,
        {
            r.push(self.mirror_urls[i].clone());
            i = i + 1;
            assert(r@ =~= seq![self.url] + self.mirror_urls@.take(i as int));
        }
        assert(self.mirror_urls@.take(n as int) =~= self.mirror_urls@);
        r
    }
}

/// The partial file is never the destination itself, and tasks with differently
/// named destinations have differently named partial files.
pub proof fn law_part_names_apart(a: DestPath, b: DestPath)
    requires
        a.file_name is Some,
        b.file_name is Some,
        a.file_name->0@ != b.file_name->0@,
    ensures
        a.part_name() != a.file_name->0@,
        a.part_name() != b.part_name(),
{
    reveal_strlit(".part");
    assert(a.part_name().len() == a.file_name->0@.len() + 5);
    if a.part_name() == b.part_name() {
        let n = a.file_name->0@.len();
        assert(a.part_name().take(n as int) =~= a.file_name->0@);
        assert(b.part_name().take(n as int) =~= b.file_name->0@);
    }
}

/// What a task sets for itself takes precedence, each setting on its own; what it does not set
/// is taken from the shared settings, and the threshold always is.
pub proof fn law_own_limits_take_precedence(t: DownloadTask, o: DownloadOptions)
    ensures
        t.max_segments is Some ==> t.limits_under(o).max_segments == t.max_segments->0,
        t.max_segments is None ==> t.limits_under(o).max_segments == o.max_segments,
        t.max_retries is Some ==> t.limits_under(o).max_retries == t.max_retries->0,
        t.max_retries is None ==> t.limits_under(o).max_retries == o.max_retries,
        t.segment_size is Some ==> t.limits_under(o).segment_size == t.segment_size->0,
        t.segment_size is None ==> t.limits_under(o).segment_size == o.segment_size,
        t.limits_under(o).split_threshold == o.split_threshold,
{
}

/// The partial file has the name of the file with `.part` behind it; a file without a name is
/// called `download`.
pub proof fn law_part_names(dest: DestPath)
    ensures
        dest.file_name matches Some(name) ==> dest.part_name() == name@ + ".part"@,
        dest.file_name is None ==> dest.part_name() == "download.part"@,
{
    reveal_strlit("download");
    reveal_strlit(".part");
    reveal_strlit("download.part");
    if dest.file_name is None {
        assert(dest.part_name() =~= "download.part"@);
    }
}

} // verus!
