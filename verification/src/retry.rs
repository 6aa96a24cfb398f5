//! Retrying: which URL is tried next, how often, and after what pause.
use rand::Rng;
use vstd::arithmetic::div_mod;
use vstd::arithmetic::power2;
use vstd::prelude::*;

use crate::error::DownloadError;
use crate::task::TimeSpan;
use crate::text;
use crate::text::decimal_text;
use crate::transfer::SegError;

verus! {

/// The longest random addition to a pause, in milliseconds.
pub const MAX_JITTER_MS: u64 = 250;

/// The URLs of a task in the order in which they are tried next: the current one
/// first.
#[derive(Clone, Debug, PartialEq, Eq)]
pub struct UrlRing {
    pub urls: Vec<String>,
}

/// The ring `urls` with its first URL moved to the end.
pub open spec fn turned(urls: Seq<String>) -> Seq<String> {
    urls.drop_first().push(urls[0])
}

/// The ring `urls` turned `n` times.
pub open spec fn turned_by(urls: Seq<String>, n: nat) -> Seq<String>
    decreases n,
{
    if n == 0 {
        urls
    } else {
        turned(turned_by(urls, (n - 1) as nat))
    }
}

impl View for UrlRing {
    type V = Seq<String>;

    open spec fn view(&self) -> Seq<String> {
        self.urls@
    }
}

impl UrlRing {
    /// There is a URL to try.
    pub open spec fn wf(self) -> bool {
        self@.len() > 0
    }

    /// A ring of these URLs, beginning with the first.
    pub fn new(urls: Vec<String>) -> (r: Self)
        requires
            urls@.len() > 0,
        ensures
            r.wf(),
            r@ == urls@,
    {
        UrlRing { urls }
    }

    /// The URL to try.
    pub fn current_url(&self) -> (u: String)
        requires
            self.wf(),
        ensures
            u == self@[0],
    {
        self.urls[0].clone()
    }

    /// Goes on to the next mirror and returns it; without mirrors nothing changes
    /// and nothing is returned.
    pub fn mirror_url(&mut self) -> (r: Option<String>)
        requires
            old(self).wf(),
        ensures
            final(self).wf(),
            old(self)@.len() < 2 ==> r is None && final(self)@ == old(self)@,
            old(self)@.len() >= 2 ==> r == Some(final(self)@[0]) && final(self)@ == turned(
                old(self)@,
            ),
    {
        if self.urls.len() < 2 {
            return None;
        }
        let first: String = self.urls.remove(0);
        self.urls.push(first);
        assert(self.urls@ =~= turned(old(self)@));
        Some(self.urls[0].clone())
    }
}

/// The URL at place `i` of a ring turned `n` times.
proof fn lemma_turned_by(urls: Seq<String>, n: nat, i: int)
    requires
        0 <= i < urls.len(),
    ensures
        turned_by(urls, n).len() == urls.len(),
        turned_by(urls, n)[i] == urls[(i + n) % (urls.len() as int)],
    decreases n,
{
    let len = urls.len() as int;
    if n == 0 {
        div_mod::lemma_small_mod(i as nat, len as nat);
    } else {
        let m = (n - 1) as nat;
        let before = turned_by(urls, m);
        if i + 1 < len {
            lemma_turned_by(urls, m, i + 1);
            assert(turned_by(urls, n)[i] == before[i + 1]);
        } else {
            lemma_turned_by(urls, m, 0);
            assert(turned_by(urls, n)[i] == before[0]);
            div_mod::lemma_mod_add_multiples_vanish(m as int, len);
            assert(i + n == len + m);
        }
    }
}

/// Turning a ring goes through its URLs in order and comes back to the first: no
/// mirror is left out.
pub proof fn law_mirrors_take_turns(urls: Seq<String>, n: nat)
    requires
        urls.len() > 0,
    ensures
        turned_by(urls, n)[0] == urls[n as int % (urls.len() as int)],
        turned_by(urls, urls.len()) == urls,
{
    lemma_turned_by(urls, n, 0);
    let len = urls.len();
    lemma_turned_by(urls, len, 0);
    assert forall|i: int| 0 <= i < len implies turned_by(urls, len)[i] == urls[i] by {
        lemma_turned_by(urls, len, i);
        div_mod::lemma_mod_add_multiples_vanish(i, len as int);
        div_mod::lemma_small_mod(i as nat, len);
    }
    assert(turned_by(urls, len) =~= urls);
}

/// Where `url` first stands in `urls`, or behind the last where it does not.
pub open spec fn place_of(urls: Seq<String>, url: Seq<char>) -> nat
    decreases urls.len(),
{
    if urls.len() == 0 || urls[0]@ == url {
        0
    } else {
        place_of(urls.drop_first(), url) + 1
    }
}

/// The ring `urls` turned until `url` is its first; as it was where `url` is not in it.
pub open spec fn turned_to(urls: Seq<String>, url: Seq<char>) -> Seq<String> {
    let p = place_of(urls, url) as int;
    urls.skip(p) + urls.take(p)
}

/// Before its first place `url` does not stand.
proof fn lemma_place_of(urls: Seq<String>, url: Seq<char>, i: int)
    requires
        0 <= i <= urls.len(),
        forall|j: int| 0 <= j < i ==> (#[trigger] urls[j])@ != url,
        i < urls.len() ==> urls[i]@ == url,
    ensures
        place_of(urls, url) == i,
    decreases i,
{
    if i > 0 {
        let rest = urls.drop_first();
        assert(urls[0]@ != url);
        assert forall|j: int| 0 <= j < i - 1 implies (#[trigger] rest[j])@ != url by {
            assert(urls[j + 1]@ != url);
        }
        lemma_place_of(rest, url, i - 1);
    }
}

/// Turning a ring to one of its URLs makes that the first and keeps all others, in the
/// same order.
pub proof fn law_turning_to_a_url(urls: Seq<String>, url: Seq<char>)
    ensures
        place_of(urls, url) <= urls.len(),
        turned_to(urls, url).len() == urls.len(),
        turned_to(urls, url) == turned_by(urls, place_of(urls, url)),
        (exists|i: int| 0 <= i < urls.len() && (#[trigger] urls[i])@ == url) ==> turned_to(
            urls,
            url,
        )[0]@ == url,
{
    lemma_place_bound(urls, url);
    let p = place_of(urls, url);
    if urls.len() > 0 {
        assert forall|i: int| 0 <= i < urls.len() implies turned_to(urls, url)[i] == turned_by(
            urls,
            p,
        )[i] by {
            lemma_turned_by(urls, p, i);
            let len = urls.len() as int;
            if i + p < len {
                div_mod::lemma_small_mod((i + p) as nat, len as nat);
            } else {
                div_mod::lemma_mod_add_multiples_vanish(i + p - len, len);
                div_mod::lemma_small_mod((i + p - len) as nat, len as nat);
            }
        }
        lemma_turned_by(urls, p, 0);
    }
    assert(turned_to(urls, url) =~= turned_by(urls, p));
}

/// The first place of a URL is where it stands.
proof fn lemma_place_bound(urls: Seq<String>, url: Seq<char>)
    ensures
        place_of(urls, url) <= urls.len(),
        place_of(urls, url) < urls.len() ==> urls[place_of(urls, url) as int]@ == url,
        place_of(urls, url) == urls.len() ==> forall|i: int|
            0 <= i < urls.len() ==> (#[trigger] urls[i])@ != url,
    decreases urls.len(),
{
    if urls.len() > 0 && urls[0]@ != url {
        let rest = urls.drop_first();
        lemma_place_bound(rest, url);
        if place_of(urls, url) == urls.len() {
            assert forall|i: int| 0 <= i < urls.len() implies (#[trigger] urls[i])@ != url by {
                if i > 0 {
                    assert(rest[i - 1]@ != url);
                }
            }
        }
    }
}

impl UrlRing {
    /// Turns the ring to `url`, so that what begins later begins with it.
    pub fn turn_to(&mut self, url: &String)
        requires
            old(self).wf(),
        ensures
            final(self).wf(),
            final(self)@ == turned_to(old(self)@, url@),
    {
        let n: usize = self.urls.len();
        let mut p: usize = 0;
        while p < n && self.urls[p] != *url
            invariant
                n == self.urls@.len(),
                0 <= p <= n,
                forall|j: int| 0 <= j < p ==> (#[trigger] self.urls@[j])@ != url@,
            decreases n - p,
        {
            p = p + 1;
        }
        proof {
            lemma_place_of(self.urls@, url@, p as int);
        }
        let ghost before = self.urls@;
        let mut i: usize = 0;
        assert(before.skip(0) + before.take(0) =~= before);
        while i < p
            invariant
                0 <= i <= p <= n,
                n == before.len(),
                n > 0,
                self.urls@ == before.skip(i as int) + before.take(i as int),
            decreases p - i,
        {
            let first: String = self.urls.remove(0);
            self.urls.push(first);
            i = i + 1;
            assert(self.urls@ =~= before.skip(i as int) + before.take(i as int));
        }
    }
}

/// Where the attempts stand after one more failure: the URLs still to be tried, the
/// current one first, and how often that has been retried; or nothing where that was the
/// last attempt. A URL is retried up to the limit; then it is the turn of the next one.
pub open spec fn after_failure(urls: Seq<String>, attempt: nat, max_retries: nat) -> Option<
    (Seq<String>, nat),
> {
    if attempt < max_retries {
        Some((urls, attempt + 1))
    } else if urls.len() >= 2 {
        Some((urls.drop_first(), 0nat))
    } else {
        None
    }
}

/// What to do after a failed attempt.
#[derive(Clone, Debug, PartialEq, Eq)]
pub enum RetryStep {
    /// Pause, then try the same URL again; this is the number of the retry.
    Again(u32),
    /// Try this mirror at once.
    Switch(String),
    /// Give up.
    GiveUp,
}

/// The attempts at one segment or one stream.
#[derive(Clone, Debug, PartialEq, Eq)]
pub struct Retries {
    attempt: u32,
    max_retries: u32,
    urls: Vec<String>,
}

/// The attempts at one segment or one stream, as plain mathematical values.
#[verifier::ext_equal]
pub struct RetriesView {
    /// How often the current URL has been retried.
    pub attempt: nat,
    /// How often a URL is retried.
    pub max_retries: nat,
    /// The URLs still to be tried, the current one first.
    pub urls: Seq<String>,
}

impl View for Retries {
    type V = RetriesView;

    closed spec fn view(&self) -> RetriesView {
        RetriesView {
            attempt: self.attempt as nat,
            max_retries: self.max_retries as nat,
            urls: self.urls@,
        }
    }
}

impl RetriesView {
    /// There is a URL to try, and it has not been retried more often than allowed.
    pub open spec fn wf(self) -> bool {
        self.attempt <= self.max_retries <= u32::MAX && self.urls.len() > 0
    }

    /// After one more failure; as it was where that was the last attempt.
    pub open spec fn failed(self) -> RetriesView {
        match after_failure(self.urls, self.attempt, self.max_retries) {
            Some((urls, attempt)) => RetriesView { urls, attempt, ..self },
            None => self,
        }
    }
}

impl Retries {
    /// No retries yet; the URLs of `ring` are to be tried in order.
    pub fn new(ring: &UrlRing, max_retries: u32) -> (r: Self)
        requires
            ring.wf(),
        ensures
            r@.wf(),
            r@ == (RetriesView {
                attempt: 0,
                max_retries: max_retries as nat,
                urls: ring@,
            }),
    {
        let mut urls: Vec<String> = Vec::new();
        let n: usize = ring.urls.len();
        let mut i: usize = 0;
        while i < n
            invariant
                n == ring.urls@.len(),
                0 <= i <= n,
                urls@ == ring.urls@.take(i as int),
            decreases n - i,
        {
            urls.push(ring.urls[i].clone());
            i = i + 1;
            assert(urls@ =~= ring.urls@.take(i as int));
        }
        assert(ring.urls@.take(n as int) =~= ring.urls@);
        Retries { attempt: 0, max_retries, urls }
    }

    /// The URL to try.
    pub fn url(&self) -> (u: String)
        requires
            self@.wf(),
        ensures
            u == self@.urls[0],
    {
        self.urls[0].clone()
    }

    /// Takes in that an attempt failed: the same URL is tried again, or the next one, or
    /// that was the last attempt.
    pub fn failed(&mut self) -> (r: RetryStep)
        requires
            old(self)@.wf(),
        ensures
            final(self)@.wf(),
            final(self)@ == old(self)@.failed(),
            r == (match after_failure(
                old(self)@.urls,
                old(self)@.attempt,
                old(self)@.max_retries,
            ) {
                Some((urls, attempt)) => if attempt > 0 {
                    RetryStep::Again(attempt as u32)
                } else {
                    RetryStep::Switch(urls[0])
                },
                None => RetryStep::GiveUp,
            }),
    {
        if self.attempt < self.max_retries {
            self.attempt = self.attempt + 1;
            return RetryStep::Again(self.attempt);
        }
        if self.urls.len() >= 2 {
            let _ = self.urls.remove(0);
            self.attempt = 0;
            assert(self.urls@ =~= old(self)@.urls.drop_first());
            return RetryStep::Switch(self.urls[0].clone());
        }
        RetryStep::GiveUp
    }
}

/// Where the attempts stand after `n` failures in a row, beginning with all of `urls`: the
/// URLs still to be tried and how often the first of them has been retried, or nothing
/// once given up.
pub open spec fn after_failures(urls: Seq<String>, max_retries: nat, n: nat) -> Option<
    (Seq<String>, nat),
>
    decreases n,
{
    if n == 0 {
        Some((urls, 0nat))
    } else {
        match after_failures(urls, max_retries, (n - 1) as nat) {
            None => None,
            Some((left, attempt)) => after_failure(left, attempt, max_retries),
        }
    }
}

/// Retries and mirrors run out: every URL, in order, is tried once and then retried as
/// often as allowed, neither less nor more, and after that the attempts are given up.
pub proof fn law_attempts_run_out(urls: Seq<String>, max_retries: nat, n: nat)
    requires
        urls.len() > 0,
    ensures
        after_failures(urls, max_retries, n) is None <==> n >= urls.len() * (max_retries + 1),
        n < urls.len() * (max_retries + 1) ==> after_failures(urls, max_retries, n) == Some(
            (urls.skip(n as int / (max_retries + 1) as int), n % (max_retries + 1)),
        ),
    decreases n,
{
    let m = (max_retries + 1) as int;
    let len = urls.len() as int;
    assert(len * m >= m) by (nonlinear_arith)
        requires
            len >= 1,
            m >= 1,
    ;
    if n == 0 {
        div_mod::lemma_small_mod(0, m as nat);
        div_mod::lemma_basic_div(0, m);
        assert(urls.skip(0) =~= urls);
    } else {
        let p = (n - 1) as nat;
        law_attempts_run_out(urls, max_retries, p);
        if p < len * m {
            div_mod::lemma_fundamental_div_mod(p as int, m);
            div_mod::lemma_mod_bound(p as int, m);
            let q = p as int / m;
            let r = p as int % m;
            div_mod::lemma_div_pos_is_pos(p as int, m);
            assert(q < len) by (nonlinear_arith)
                requires
                    p == m * q + r,
                    0 <= r,
                    p < len * m,
                    m >= 1,
            ;
            if r < max_retries {
                div_mod::lemma_fundamental_div_mod_converse(n as int, m, q, r + 1);
                assert(n < len * m) by (nonlinear_arith)
                    requires
                        n == m * q + r + 1,
                        r + 1 < m,
                        q + 1 <= len,
                        m >= 1,
                ;
            } else {
                assert(n == m * (q + 1)) by (nonlinear_arith)
                    requires
                        n == m * q + m,
                ;
                div_mod::lemma_fundamental_div_mod_converse(n as int, m, q + 1, 0);
                let left = urls.skip(q);
                assert(left.len() == len - q);
                if q + 1 < len {
                    assert(left.drop_first() =~= urls.skip(q + 1));
                    assert(n < len * m) by (nonlinear_arith)
                        requires
                            n == m * (q + 1),
                            q + 1 < len,
                            m >= 1,
                    ;
                } else {
                    assert(n == len * m) by (nonlinear_arith)
                        requires
                            n == m * (q + 1),
                            q + 1 == len,
                    ;
                }
            }
        }
    }
}

/// The factor by which the pause before retry number `attempt` has grown: it doubles with
/// each retry, up to the sixth.
pub open spec fn delay_factor(attempt: u32) -> nat {
    power2::pow2(
        if attempt < 6 {
            attempt as nat
        } else {
            6
        },
    )
}

/// The milliseconds that pauses are counted in: at least one. Of more than 64 bits
/// the lower 64 count.
pub open spec fn base_millis(base: TimeSpan) -> u64 {
    (if base.nanos / 1_000_000 < 1 {
        1u128
    } else {
        base.nanos / 1_000_000
    }) as u64
}

/// The pause before retry number `attempt`, in milliseconds.
pub open spec fn delay_millis(base: TimeSpan, attempt: u32, jitter: u64) -> int {
    base_millis(base) * delay_factor(attempt) + jitter
}

/// The milliseconds that pauses are counted in.
fn base_of(base: &TimeSpan) -> (r: u64)
    ensures
        r == base_millis(*base),
{
    let millis: u128 = base.as_millis();
    let at_least_one: u128 = if millis < 1 {
        1
    } else {
        millis
    };
    #[verifier::truncate]
    (at_least_one as u64)
}

/// The factor by which the pause has grown.
fn factor_of(attempt: u32) -> (r: u64)
    ensures
        r == delay_factor(attempt),
        1 <= r <= 64,
{
    let n: u32 = if attempt < 6 {
        attempt
    } else {
        6
    };
    let mut r: u64 = 1;
    let mut i: u32 = 0;
    proof {
        power2::lemma2_to64();
    }
    while i < n
        invariant
            0 <= i <= n <= 6,
            r == power2::pow2(i as nat),
            r * power2::pow2((n - i) as nat) <= 64,
        decreases n - i,
    {
        proof {
            power2::lemma2_to64();
            power2::lemma_pow2_unfold((i + 1) as nat);
            power2::lemma_pow2_unfold((n - i) as nat);
            power2::lemma_pow2_pos((n - i - 1) as nat);
            let half = power2::pow2((n - i - 1) as nat);
            assert(r * (2 * half) == (r * 2) * half) by (nonlinear_arith);
            assert(r * 2 <= (r * 2) * half) by (nonlinear_arith)
                requires
                    half >= 1,
                    r >= 0,
            ;
        }
        r = r * 2;
        i = i + 1;
    }
    proof {
        power2::lemma2_to64();
    }
    r
}

/// Whether the pause before retry number `attempt`, whatever is added at random,
/// is a number of milliseconds that can be counted.
pub fn backoff_fits(base: &TimeSpan, attempt: u32) -> (b: bool)
    ensures
        b == (delay_millis(*base, attempt, MAX_JITTER_MS) <= u64::MAX),
{
    let ms: u64 = base_of(base);
    let factor: u64 = factor_of(attempt);
    assert(0 <= ms * factor <= 0xffff_ffff_ffff_ffff * 64) by (nonlinear_arith)
        requires
            0 <= ms <= 0xffff_ffff_ffff_ffff,
            1 <= factor <= 64,
    ;
    ms as u128 * factor as u128 + MAX_JITTER_MS as u128 <= u64::MAX as u128
}

/// The pause before retry number `attempt`: it doubles with each retry, up to the
/// sixth, and `jitter` milliseconds are added.
pub fn backoff_with(base: &TimeSpan, attempt: u32, jitter: u64) -> (d: TimeSpan)
    requires
        delay_millis(*base, attempt, jitter) <= u64::MAX,
    ensures
        d.nanos == delay_millis(*base, attempt, jitter) * 1_000_000,
{
    let ms: u64 = base_of(base);
    let factor: u64 = factor_of(attempt);
    assert(0 <= ms * factor) by (nonlinear_arith);
    TimeSpan::from_millis(ms * factor + jitter)
}

/// A number up to and including `max`, drawn with `rand::Rng::random_range` from
/// the generator that `rand::rng` gives the thread. Nothing else is claimed of it:
/// each call may give another.
#[verifier::external_body]
fn random_up_to(max: u64) -> (r: u64)
    ensures
        r <= max,
{
    rand::rng().random_range(0..=max)
}

/// The pause before retry number `attempt`, with a random addition, so that failed
/// requests are not all repeated at the same moment.
pub fn backoff(base: &TimeSpan, attempt: u32) -> (d: TimeSpan)
    requires
        delay_millis(*base, attempt, MAX_JITTER_MS) <= u64::MAX,
    ensures
        exists|jitter: u64|
            jitter <= MAX_JITTER_MS && d.nanos == #[trigger] delay_millis(*base, attempt, jitter)
                * 1_000_000,
{
    let jitter: u64 = random_up_to(MAX_JITTER_MS);
    backoff_with(base, attempt, jitter)
}

/// But for the random part each pause is twice as long as the one before, up to the
/// sixth, and from there on all are alike.
pub proof fn law_backoff_doubles(base: TimeSpan, attempt: u32)
    ensures
        attempt < 6 ==> delay_millis(base, (attempt + 1) as u32, 0) == 2 * delay_millis(
            base,
            attempt,
            0,
        ),
        attempt >= 6 ==> delay_millis(base, attempt, 0) == delay_millis(base, 6, 0),
{
    if attempt < 6 {
        power2::lemma_pow2_unfold((attempt + 1) as nat);
        let b = base_millis(base);
        let f = delay_factor(attempt);
        assert(b * (2 * f) == 2 * (b * f)) by (nonlinear_arith);
    }
}

/// But for the random part a later retry never waits less than an earlier one, and none
/// waits longer than 64 times the base.
pub proof fn law_backoff_never_shrinks(base: TimeSpan, earlier: u32, later: u32, jitter: u64)
    requires
        earlier <= later,
    ensures
        delay_millis(base, earlier, jitter) <= delay_millis(base, later, jitter),
        delay_millis(base, later, jitter) <= 64 * base_millis(base) + jitter,
{
    let b = base_millis(base);
    let e = delay_factor(earlier);
    let l = delay_factor(later);
    power2::lemma2_to64();
    assert(e <= l <= 64);
    assert(b * e <= b * l <= b * 64) by (nonlinear_arith)
        requires
            0 <= b,
            e <= l <= 64,
    ;
}

/// What is logged when segment `index` is retried.
pub open spec fn segment_retry_text(index: u32, attempt: u32, reason: Seq<char>) -> Seq<char> {
    "段 "@ + text::decimal(index as nat) + " 第 "@ + text::decimal(attempt as nat) + " 次重试（"@
        + reason + "）"@
}

/// What is logged when segment `index` goes on to a mirror.
pub open spec fn segment_switch_text(index: u32, url: Seq<char>) -> Seq<char> {
    "段 "@ + text::decimal(index as nat) + " 重试耗尽，切换镜像 "@ + url
}

/// What is logged when a stream is retried.
pub open spec fn stream_retry_text(attempt: u32, reason: Seq<char>) -> Seq<char> {
    "流式下载第 "@ + text::decimal(attempt as nat) + " 次重试（"@ + reason + "）"@
}

/// What is logged when a stream goes on to a mirror.
pub open spec fn stream_switch_text(url: Seq<char>) -> Seq<char> {
    "流式重试耗尽，切换镜像 "@ + url
}

/// What to do once an attempt at a segment has ended.
#[derive(Clone, Debug, PartialEq, Eq)]
pub enum SegmentAction {
    /// The segment is complete.
    Complete,
    /// The run stops: it was paused, cancelled or shut down.
    Interrupted,
    /// The run stops: retries and mirrors are used up; the text says why the last
    /// attempt failed.
    Exhausted(String),
    /// Log the message, pause before retry number `attempt`, and try again.
    Retry { attempt: u32, message: String },
    /// Log the message and try again at once, from the mirror.
    Switch { message: String },
}

/// What to do once an attempt at a stream has ended.
#[derive(Clone, Debug, PartialEq, Eq)]
pub enum StreamAction {
    /// The stream is complete.
    Complete,
    /// The run stops with this error.
    Fail(DownloadError),
    /// Log the message, pause before retry number `attempt`, and try again.
    Retry { attempt: u32, message: String },
    /// Log the message and try again at once, from the mirror.
    Switch { message: String },
}

impl RetriesView {
    /// What is to be done after an attempt at segment `index` ended with `result`. Only an
    /// error that another attempt may mend counts as a failure.
    pub open spec fn segment_action_is(
        self,
        index: u32,
        result: Result<(), SegError>,
        action: SegmentAction,
    ) -> bool {
        match result {
            Ok(_) => action == SegmentAction::Complete,
            Err(SegError::Cancelled) => action == SegmentAction::Interrupted,
            Err(SegError::Retryable(reason)) => match after_failure(
                self.urls,
                self.attempt,
                self.max_retries,
            ) {
                Some((urls, n)) => if n > 0 {
                    &&& action matches SegmentAction::Retry { attempt, message }
                    &&& attempt == n
                    &&& message@ == segment_retry_text(index, attempt, reason@)
                } else {
                    &&& action matches SegmentAction::Switch { message }
                    &&& message@ == segment_switch_text(index, urls[0]@)
                },
                None => action == SegmentAction::Exhausted(reason),
            },
        }
    }

    /// What is to be done after an attempt at a stream ended with `result`. Every error
    /// but a cancellation counts as a failure.
    pub open spec fn stream_action_is(
        self,
        result: Result<(), DownloadError>,
        action: StreamAction,
    ) -> bool {
        match result {
            Ok(_) => action == StreamAction::Complete,
            Err(DownloadError::Cancelled) => action == StreamAction::Fail(DownloadError::Cancelled),
            Err(e) => match after_failure(self.urls, self.attempt, self.max_retries) {
                Some((urls, n)) => if n > 0 {
                    &&& action matches StreamAction::Retry { attempt, message }
                    &&& attempt == n
                    &&& message@ == stream_retry_text(attempt, e.text())
                } else {
                    &&& action matches StreamAction::Switch { message }
                    &&& message@ == stream_switch_text(urls[0]@)
                },
                None => action == StreamAction::Fail(e),
            },
        }
    }

    /// The ring `urls`, turned to the URL that is tried next where that is another one.
    pub open spec fn ring_after(self, urls: Seq<String>, failed: bool) -> Seq<String> {
        if failed && self.attempt >= self.max_retries && self.urls.len() >= 2 {
            turned_to(urls, self.urls[1]@)
        } else {
            urls
        }
    }
}

/// The attempt failed in a way that another attempt may mend.
pub open spec fn segment_failed(result: Result<(), SegError>) -> bool {
    result is Err && result->Err_0 is Retryable
}

/// The attempt failed and was not merely stopped.
pub open spec fn stream_failed(result: Result<(), DownloadError>) -> bool {
    result is Err && !(result->Err_0 is Cancelled)
}

impl Retries {
    /// Takes in how an attempt at segment `index` ended and decides what to do. When it
    /// goes on to a mirror, `ring` is turned to that.
    pub fn after_segment_attempt(
        &mut self,
        ring: &mut UrlRing,
        index: u32,
        result: Result<(), SegError>,
    ) -> (action: SegmentAction)
        requires
            old(self)@.wf(),
            old(ring).wf(),
        ensures
            final(self)@.wf(),
            final(ring).wf(),
            final(self)@ == (if segment_failed(result) {
                old(self)@.failed()
            } else {
                old(self)@
            }),
            final(ring)@ == old(self)@.ring_after(old(ring)@, segment_failed(result)),
            old(self)@.segment_action_is(index, result, action),
    {
        match result {
            Ok(_) => SegmentAction::Complete,
            Err(SegError::Cancelled) => SegmentAction::Interrupted,
            Err(SegError::Retryable(reason)) => match self.failed() {
                RetryStep::Again(attempt) => {
                    let message: String = "段 ".to_owned().concat(
                        decimal_text(index as u64).as_str(),
                    ).concat(" 第 ").concat(decimal_text(attempt as u64).as_str()).concat(
                        " 次重试（",
                    ).concat(reason.as_str()).concat("）");
                    SegmentAction::Retry { attempt, message }
                },
                RetryStep::Switch(url) => {
                    ring.turn_to(&url);
                    let message: String = "段 ".to_owned().concat(
                        decimal_text(index as u64).as_str(),
                    ).concat(" 重试耗尽，切换镜像 ").concat(url.as_str());
                    SegmentAction::Switch { message }
                },
                RetryStep::GiveUp => SegmentAction::Exhausted(reason),
            },
        }
    }

    /// Takes in how an attempt at a stream ended and decides what to do. When it goes on to
    /// a mirror, `ring` is turned to that.
    pub fn after_stream_attempt(
        &mut self,
        ring: &mut UrlRing,
        result: Result<(), DownloadError>,
    ) -> (action: StreamAction)
        requires
            old(self)@.wf(),
            old(ring).wf(),
        ensures
            final(self)@.wf(),
            final(ring).wf(),
            final(self)@ == (if stream_failed(result) {
                old(self)@.failed()
            } else {
                old(self)@
            }),
            final(ring)@ == old(self)@.ring_after(old(ring)@, stream_failed(result)),
            old(self)@.stream_action_is(result, action),
    {
        match result {
            Ok(_) => StreamAction::Complete,
            Err(DownloadError::Cancelled) => StreamAction::Fail(DownloadError::Cancelled),
            Err(e) => match self.failed() {
                RetryStep::Again(attempt) => {
                    let message: String = "流式下载第 ".to_owned().concat(
                        decimal_text(attempt as u64).as_str(),
                    ).concat(" 次重试（").concat(e.message().as_str()).concat("）");
                    StreamAction::Retry { attempt, message }
                },
                RetryStep::Switch(url) => {
                    ring.turn_to(&url);
                    let message: String = "流式重试耗尽，切换镜像 ".to_owned().concat(url.as_str());
                    StreamAction::Switch { message }
                },
                RetryStep::GiveUp => StreamAction::Fail(e),
            },
        }
    }
}

/// After any error but a cancellation a stream is tried again as long as the URL may be
/// retried or another is left; it fails, with that error, only when neither is so. It is
/// complete exactly when it came to its end.
pub proof fn law_stream_fails_only_when_nothing_is_left(
    v: RetriesView,
    result: Result<(), DownloadError>,
    action: StreamAction,
)
    requires
        v.wf(),
        v.stream_action_is(result, action),
    ensures
        result is Ok <==> action is Complete,
        result matches Err(e) ==> {
            &&& e is Cancelled ==> action == StreamAction::Fail(e)
            &&& !(e is Cancelled) ==> {
                &&& action is Fail <==> v.attempt >= v.max_retries && v.urls.len() < 2
                &&& action is Retry <==> v.attempt < v.max_retries
                &&& action is Switch <==> v.attempt >= v.max_retries && v.urls.len() >= 2
                &&& action is Fail ==> action == StreamAction::Fail(e)
                &&& action matches StreamAction::Retry { attempt, .. } ==> attempt == v.attempt + 1
            }
        },
{
}

/// After any error that another attempt may mend a segment is tried again as long as the URL
/// may be retried or another is left; it is given up, for that reason, only when neither is
/// so. It is complete exactly when the attempt brought all of it.
pub proof fn law_segment_fails_only_when_nothing_is_left(
    v: RetriesView,
    index: u32,
    result: Result<(), SegError>,
    action: SegmentAction,
)
    requires
        v.wf(),
        v.segment_action_is(index, result, action),
    ensures
        result is Ok <==> action is Complete,
        result is Err && result->Err_0 is Cancelled <==> action is Interrupted,
        result matches Err(SegError::Retryable(reason)) ==> {
            &&& action is Exhausted <==> v.attempt >= v.max_retries && v.urls.len() < 2
            &&& action is Retry <==> v.attempt < v.max_retries
            &&& action is Switch <==> v.attempt >= v.max_retries && v.urls.len() >= 2
            &&& action is Exhausted ==> action == SegmentAction::Exhausted(reason)
            &&& action matches SegmentAction::Retry { attempt, .. } ==> attempt == v.attempt + 1
        },
{
}

/// A failed attempt uses up one retry, or the URL where none is left; which errors count is
/// told by what they are: for a segment those that another attempt may mend, for a
/// stream all but a cancellation.
pub proof fn law_a_failure_uses_up_one_attempt(
    v: RetriesView,
    segment: Result<(), SegError>,
    stream: Result<(), DownloadError>,
)
    requires
        v.wf(),
    ensures
        segment_failed(segment) <==> segment is Err && !(segment->Err_0 is Cancelled),
        stream_failed(stream) <==> stream is Err && !(stream->Err_0 is Cancelled),
        v.failed().wf(),
        v.failed().max_retries == v.max_retries,
        v.attempt < v.max_retries ==> v.failed().attempt == v.attempt + 1 && v.failed().urls
            == v.urls,
        v.attempt >= v.max_retries && v.urls.len() >= 2 ==> v.failed().attempt == 0
            && v.failed().urls == v.urls.drop_first(),
        v.attempt >= v.max_retries && v.urls.len() < 2 ==> v.failed() == v,
{
}

/// When the attempts go on to a mirror, what begins later begins with that mirror; else the
/// order of the URLs stays as it was.
pub proof fn law_later_attempts_begin_with_the_mirror(
    v: RetriesView,
    ring: Seq<String>,
    failed: bool,
    i: int,
)
    requires
        v.wf(),
        v.urls.len() >= 2 ==> 0 <= i < ring.len() && ring[i]@ == v.urls[1]@,
    ensures
        v.ring_after(ring, failed).len() == ring.len(),
        failed && v.attempt >= v.max_retries && v.urls.len() >= 2 ==> v.ring_after(
            ring,
            failed,
        )[0]@ == v.failed().urls[0]@,
        !failed || v.attempt < v.max_retries || v.urls.len() < 2 ==> v.ring_after(ring, failed)
            == ring,
{
    if v.urls.len() >= 2 {
        law_turning_to_a_url(ring, v.urls[1]@);
    }
}

/// The attempts at a stream stand as in `states`, end with `results`, and lead to `actions`.
pub open spec fn is_stream_course(
    states: Seq<RetriesView>,
    results: Seq<Result<(), DownloadError>>,
    actions: Seq<StreamAction>,
) -> bool {
    &&& states.len() == results.len() + 1
    &&& actions.len() == results.len()
    &&& states[0].attempt == 0
    &&& states[0].wf()
    &&& forall|i: int|
        #![trigger results[i]]
        0 <= i < results.len() ==> {
            &&& states[i].stream_action_is(results[i], actions[i])
            &&& states[i + 1] == (if stream_failed(results[i]) {
                states[i].failed()
            } else {
                states[i]
            })
        }
}

/// A stream whose attempts all fail, each with whatever error, is tried on every URL, in order,
/// once and then as often as may be retried; only the last of these attempts fails it.
pub proof fn law_stream_tries_every_url(
    states: Seq<RetriesView>,
    results: Seq<Result<(), DownloadError>>,
    actions: Seq<StreamAction>,
    i: int,
)
    requires
        is_stream_course(states, results, actions),
        forall|j: int|
            0 <= j < results.len() ==> (#[trigger] results[j]) is Err && !(
            results[j]->Err_0 is Cancelled),
        results.len() <= states[0].urls.len() * (states[0].max_retries + 1),
        0 <= i < results.len(),
    ensures
        ({
            let m = (states[0].max_retries + 1) as int;
            &&& states[i].urls[0] == states[0].urls[i / m]
            &&& actions[i] is Fail <==> i + 1 == states[0].urls.len() * m
            &&& actions[i] is Fail ==> actions[i] == StreamAction::Fail(results[i]->Err_0)
            &&& (i + 1) % m != 0 ==> (actions[i] matches StreamAction::Retry { attempt, .. }
                && attempt == (i + 1) % m)
            &&& (i + 1) % m == 0 && i + 1 < states[0].urls.len() * m ==> actions[i] is Switch
        }),
{
    lemma_stream_course(states, results, actions, i);
    assert(results[i] is Err);
    lemma_place_in_order(states[0].urls, states[0].max_retries, i);
    lemma_turn(i, (states[0].max_retries + 1) as int, states[0].urls.len() as int);
    law_stream_fails_only_when_nothing_is_left(states[i], results[i], actions[i]);
}

/// Where attempt number `i`, counted from zero, stands: on which URL, and how often that has
/// been retried.
proof fn lemma_place_in_order(urls: Seq<String>, max_retries: nat, i: int)
    requires
        urls.len() > 0,
        0 <= i < urls.len() * (max_retries + 1),
    ensures
        ({
            let m = (max_retries + 1) as int;
            &&& 0 <= i / m < urls.len()
            &&& after_failures(urls, max_retries, i as nat) matches Some((left, attempt))
            &&& left[0] == urls[i / m]
            &&& left.len() == urls.len() - i / m
            &&& attempt == i % m
        }),
{
    let m = (max_retries + 1) as int;
    law_attempts_run_out(urls, max_retries, i as nat);
    lemma_turn(i, m, urls.len() as int);
    assert(urls.skip(i / m)[0] == urls[i / m]);
}

/// Of `len` turns of `m` attempts each, attempt number `i` is the last of its turn, or of all.
proof fn lemma_turn(i: int, m: int, len: int)
    requires
        0 <= i < len * m,
        m >= 1,
    ensures
        0 <= i % m < m,
        0 <= i / m < len,
        i % m + 1 < m ==> (i + 1) % m == i % m + 1,
        i % m + 1 == m <==> (i + 1) % m == 0,
        i + 1 == len * m <==> i % m + 1 == m && i / m + 1 == len,
{
    div_mod::lemma_fundamental_div_mod(i, m);
    div_mod::lemma_mod_bound(i, m);
    div_mod::lemma_div_pos_is_pos(i, m);
    let q = i / m;
    let r = i % m;
    assert(q < len) by (nonlinear_arith)
        requires
            i == m * q + r,
            0 <= r,
            i < len * m,
            m >= 1,
    ;
    if r + 1 < m {
        assert(i + 1 == q * m + (r + 1)) by (nonlinear_arith)
            requires
                i == m * q + r,
        ;
        div_mod::lemma_fundamental_div_mod_converse(i + 1, m, q, r + 1);
        assert(i + 1 < len * m) by (nonlinear_arith)
            requires
                i + 1 == q * m + (r + 1),
                r + 1 < m,
                q + 1 <= len,
                m >= 1,
        ;
    } else {
        assert(i + 1 == (q + 1) * m + 0) by (nonlinear_arith)
            requires
                i + 1 == m * q + m,
        ;
        div_mod::lemma_fundamental_div_mod_converse(i + 1, m, q + 1, 0);
        if q + 1 < len {
            assert(i + 1 < len * m) by (nonlinear_arith)
                requires
                    i + 1 == (q + 1) * m + 0,
                    q + 1 < len,
                    m >= 1,
            ;
        } else {
            assert(q + 1 == len);
        }
    }
}

/// The attempts at a stream stand as so many failures leave them.
proof fn lemma_stream_course(
    states: Seq<RetriesView>,
    results: Seq<Result<(), DownloadError>>,
    actions: Seq<StreamAction>,
    i: int,
)
    requires
        is_stream_course(states, results, actions),
        forall|j: int|
            0 <= j < results.len() ==> (#[trigger] results[j]) is Err && !(
            results[j]->Err_0 is Cancelled),
        results.len() <= states[0].urls.len() * (states[0].max_retries + 1),
        0 <= i < results.len(),
    ensures
        after_failures(states[0].urls, states[0].max_retries, i as nat) == Some(
            (states[i].urls, states[i].attempt),
        ),
        states[i].max_retries == states[0].max_retries,
        states[i].wf(),
    decreases i,
{
    if i > 0 {
        let p = i - 1;
        lemma_stream_course(states, results, actions, p);
        law_attempts_run_out(states[0].urls, states[0].max_retries, i as nat);
        assert(results[p] is Err);
        assert(states[i] == states[p].failed());
    }
}

/// The attempts at segment `index` stand as in `states`, end with `results`, and lead to
/// `actions`.
pub open spec fn is_segment_course(
    states: Seq<RetriesView>,
    index: u32,
    results: Seq<Result<(), SegError>>,
    actions: Seq<SegmentAction>,
) -> bool {
    &&& states.len() == results.len() + 1
    &&& actions.len() == results.len()
    &&& states[0].attempt == 0
    &&& states[0].wf()
    &&& forall|i: int|
        #![trigger results[i]]
        0 <= i < results.len() ==> {
            &&& states[i].segment_action_is(index, results[i], actions[i])
            &&& states[i + 1] == (if segment_failed(results[i]) {
                states[i].failed()
            } else {
                states[i]
            })
        }
}

/// The attempts at a segment stand as so many failures leave them.
proof fn lemma_segment_course(
    states: Seq<RetriesView>,
    index: u32,
    results: Seq<Result<(), SegError>>,
    actions: Seq<SegmentAction>,
    i: int,
)
    requires
        is_segment_course(states, index, results, actions),
        forall|j: int|
            0 <= j < results.len() ==> (#[trigger] results[j]) is Err && results[j]->Err_0 is Retryable,
        results.len() <= states[0].urls.len() * (states[0].max_retries + 1),
        0 <= i < results.len(),
    ensures
        after_failures(states[0].urls, states[0].max_retries, i as nat) == Some(
            (states[i].urls, states[i].attempt),
        ),
        states[i].max_retries == states[0].max_retries,
        states[i].wf(),
    decreases i,
{
    if i > 0 {
        let p = i - 1;
        lemma_segment_course(states, index, results, actions, p);
        law_attempts_run_out(states[0].urls, states[0].max_retries, i as nat);
        assert(results[p] is Err);
        assert(states[i] == states[p].failed());
    }
}

/// A segment whose attempts all fail is tried on every URL, in order, once and then as often
/// as may be retried; only the last of these attempts gives it up.
pub proof fn law_segment_tries_every_url(
    states: Seq<RetriesView>,
    index: u32,
    results: Seq<Result<(), SegError>>,
    actions: Seq<SegmentAction>,
    i: int,
)
    requires
        is_segment_course(states, index, results, actions),
        forall|j: int|
            0 <= j < results.len() ==> (#[trigger] results[j]) is Err && results[j]->Err_0 is Retryable,
        results.len() <= states[0].urls.len() * (states[0].max_retries + 1),
        0 <= i < results.len(),
    ensures
        ({
            let m = (states[0].max_retries + 1) as int;
            &&& states[i].urls[0] == states[0].urls[i / m]
            &&& actions[i] is Exhausted <==> i + 1 == states[0].urls.len() * m
            &&& (i + 1) % m != 0 ==> (actions[i] matches SegmentAction::Retry { attempt, .. }
                && attempt == (i + 1) % m)
            &&& (i + 1) % m == 0 && i + 1 < states[0].urls.len() * m ==> actions[i] is Switch
        }),
{
    lemma_segment_course(states, index, results, actions, i);
    assert(results[i] is Err);
    lemma_place_in_order(states[0].urls, states[0].max_retries, i);
    lemma_turn(i, (states[0].max_retries + 1) as int, states[0].urls.len() as int);
    law_segment_fails_only_when_nothing_is_left(states[i], index, results[i], actions[i]);
}

/// What is logged about an attempt tells what failed: which segment, which retry and why, or
/// which mirror is next.
pub proof fn law_messages_tell_what_failed(
    v: RetriesView,
    index: u32,
    segment: Result<(), SegError>,
    segment_action: SegmentAction,
    stream: Result<(), DownloadError>,
    stream_action: StreamAction,
)
    requires
        v.wf(),
        v.segment_action_is(index, segment, segment_action),
        v.stream_action_is(stream, stream_action),
    ensures
        segment_action matches SegmentAction::Retry { attempt, message } ==> message@
            == "段 "@ + text::decimal(index as nat) + " 第 "@ + text::decimal(
            (v.attempt + 1) as nat,
        ) + " 次重试（"@ + segment->Err_0->Retryable_0@ + "）"@,
        segment_action matches SegmentAction::Switch { message } ==> message@ == "段 "@
            + text::decimal(index as nat) + " 重试耗尽，切换镜像 "@ + v.urls[1]@,
        stream_action matches StreamAction::Retry { attempt, message } ==> message@
            == "流式下载第 "@ + text::decimal((v.attempt + 1) as nat) + " 次重试（"@
            + stream->Err_0.text() + "）"@,
        stream_action matches StreamAction::Switch { message } ==> message@
            == "流式重试耗尽，切换镜像 "@ + v.urls[1]@,
{
}

/// The pause before a retry begins with the base, of which whole milliseconds count and at
/// least one, and what is drawn at random comes on top of it.
pub proof fn law_backoff_starts_at_the_base(base: TimeSpan, attempt: u32, jitter: u64)
    requires
        base.nanos / 1_000_000 <= u64::MAX,
    ensures
        base.nanos >= 1_000_000 ==> delay_millis(base, 0, 0) == base.nanos / 1_000_000,
        base.nanos < 1_000_000 ==> delay_millis(base, 0, 0) == 1,
        delay_millis(base, attempt, jitter) == delay_millis(base, attempt, 0) + jitter,
        MAX_JITTER_MS == 250,
{
    power2::lemma2_to64();
    assert(delay_factor(0) == 1);
    let b = base_millis(base);
    assert(b * 1 == b);
}

/// What is logged when a segment is given up.
pub fn segment_exhausted_message(index: u32, reason: &str) -> (s: String)
    ensures
        s@ == "段 "@ + text::decimal(index as nat) + " 重试耗尽: "@ + reason@,
{
    "段 ".to_owned().concat(decimal_text(index as u64).as_str()).concat(" 重试耗尽: ").concat(
        reason,
    )
}

} // verus!
