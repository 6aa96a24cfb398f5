//! The settings of the HTTP client that all downloads share.
use vstd::prelude::*;

use crate::hosts;
use crate::hosts::is_absolute_url;
use crate::task::{DownloadOptions, TimeSpan};

verus! {

/// The largest frame that HTTP/2 allows.
pub const MAX_FRAME_SIZE: u32 = 16_777_215;

/// How a client reaches servers.
#[derive(Clone, Debug, PartialEq, Eq)]
pub enum ProxyChoice {
    /// As the system says.
    System,
    /// Through this proxy.
    Through(String),
    /// Directly, whatever the system says.
    Direct,
}

/// The settings of an HTTP client.
#[derive(Clone, Debug, PartialEq, Eq)]
pub struct ClientPlan {
    pub timeout: TimeSpan,
    pub connect_timeout: TimeSpan,
    /// How long an idle connection is kept.
    pub pool_idle_timeout: TimeSpan,
    /// How many idle connections are kept for a host.
    pub pool_max_idle_per_host: usize,
    pub user_agent: String,
    pub http2_adaptive_window: bool,
    pub http2_max_frame_size: u32,
    pub tcp_keepalive: TimeSpan,
    pub proxy: ProxyChoice,
    pub accept_invalid_certs: bool,
}

/// The settings of an HTTP client for HTTP/3 alone.
#[derive(Clone, Debug, PartialEq, Eq)]
pub struct Http3Plan {
    pub timeout: TimeSpan,
    pub connect_timeout: TimeSpan,
    /// How long an idle connection is kept.
    pub pool_idle_timeout: TimeSpan,
    /// How many idle connections are kept for a host.
    pub pool_max_idle_per_host: usize,
    pub user_agent: String,
    pub tcp_keepalive: TimeSpan,
    pub proxy: ProxyChoice,
    pub accept_invalid_certs: bool,
    /// Whether to go on with HTTP/2 when a connection fails.
    pub fallback: bool,
}

/// How many idle connections are kept for a host: as many as there may be downloads,
/// but at least one and at most 32.
pub open spec fn idle_connections(max_concurrent: usize) -> int {
    if max_concurrent < 1 {
        1
    } else if max_concurrent > 32 {
        32
    } else {
        max_concurrent as int
    }
}

/// How many idle connections are kept for a host.
fn idle_of(max_concurrent: usize) -> (n: usize)
    ensures
        n == idle_connections(max_concurrent),
{
    if max_concurrent < 1 {
        1
    } else if max_concurrent > 32 {
        32
    } else {
        max_concurrent
    }
}

/// Chooses how to reach servers, given whether the proxy of the settings is an
/// absolute URL: to use none comes first, and a proxy that is no absolute URL is
/// ignored.
pub fn choose_proxy(no_proxy: bool, proxy: Option<String>, absolute: bool) -> (c: ProxyChoice)
    ensures
        c == (if no_proxy {
            ProxyChoice::Direct
        } else {
            match proxy {
                Some(url) => if absolute {
                    ProxyChoice::Through(url)
                } else {
                    ProxyChoice::System
                },
                None => ProxyChoice::System,
            }
        }),
{
    if no_proxy {
        return ProxyChoice::Direct;
    }
    match proxy {
        Some(url) => {
            if absolute {
                ProxyChoice::Through(url)
            } else {
                ProxyChoice::System
            }
        },
        None => ProxyChoice::System,
    }
}

impl DownloadOptions {
    /// How servers are reached under these settings.
    pub open spec fn proxy_choice(self) -> ProxyChoice {
        if self.no_proxy {
            ProxyChoice::Direct
        } else {
            match self.proxy {
                Some(url) => if hosts::parsed_url(url@) is Some {
                    ProxyChoice::Through(url)
                } else {
                    ProxyChoice::System
                },
                None => ProxyChoice::System,
            }
        }
    }
}

/// How servers are reached under `options`.
fn proxy_of(options: &DownloadOptions) -> (c: ProxyChoice)
    ensures
        c == options.proxy_choice(),
{
    let absolute: bool = match &options.proxy {
        Some(url) => is_absolute_url(url.as_str()),
        None => false,
    };
    let proxy: Option<String> = match &options.proxy {
        Some(url) => Some(url.clone()),
        None => None,
    };
    choose_proxy(options.no_proxy, proxy, absolute)
}

/// The settings of the client for downloads under `options`, of which up to
/// `max_concurrent` run at once.
pub fn plan_client(options: &DownloadOptions, max_concurrent: usize) -> (p: ClientPlan)
    ensures
        p.timeout == options.timeout,
        p.connect_timeout == options.connect_timeout,
        p.pool_idle_timeout.nanos == 60_000_000_000,
        p.pool_max_idle_per_host == idle_connections(max_concurrent),
        p.user_agent == options.user_agent,
        p.http2_adaptive_window,
        p.http2_max_frame_size == MAX_FRAME_SIZE,
        p.tcp_keepalive.nanos == 30_000_000_000,
        p.accept_invalid_certs == options.ignore_ssl_certs,
        p.proxy == options.proxy_choice(),
{
    ClientPlan {
        timeout: options.timeout,
        connect_timeout: options.connect_timeout,
        pool_idle_timeout: TimeSpan::from_secs(60),
        pool_max_idle_per_host: idle_of(max_concurrent),
        user_agent: options.user_agent.clone(),
        http2_adaptive_window: true,
        http2_max_frame_size: MAX_FRAME_SIZE,
        tcp_keepalive: TimeSpan::from_secs(30),
        proxy: proxy_of(options),
        accept_invalid_certs: options.ignore_ssl_certs,
    }
}

/// The settings of the client that is tried first where HTTP/3 is asked for and built in;
/// none where it is not.
pub fn plan_http3(options: &DownloadOptions, max_concurrent: usize, built_in: bool) -> (p: Option<
    Http3Plan,
>)
    ensures
        p is Some <==> options.enable_http3 && built_in,
        p is Some ==> {
            &&& p->0.timeout == options.timeout
            &&& p->0.connect_timeout == options.connect_timeout
            &&& p->0.pool_idle_timeout.nanos == 60_000_000_000
            &&& p->0.pool_max_idle_per_host == idle_connections(max_concurrent)
            &&& p->0.user_agent == options.user_agent
            &&& p->0.tcp_keepalive.nanos == 30_000_000_000
            &&& p->0.proxy == options.proxy_choice()
            &&& p->0.accept_invalid_certs == options.ignore_ssl_certs
            &&& p->0.fallback == options.http3_fallback
        },
{
    if !(options.enable_http3 && built_in) {
        return None;
    }
    Some(
        Http3Plan {
            timeout: options.timeout,
            connect_timeout: options.connect_timeout,
            pool_idle_timeout: TimeSpan::from_secs(60),
            pool_max_idle_per_host: idle_of(max_concurrent),
            user_agent: options.user_agent.clone(),
            tcp_keepalive: TimeSpan::from_secs(30),
            proxy: proxy_of(options),
            accept_invalid_certs: options.ignore_ssl_certs,
            fallback: options.http3_fallback,
        },
    )
}

/// The protocol that a download uses.
#[derive(Clone, Copy, Debug, PartialEq, Eq, Structural)]
pub enum Protocol {
    Http2,
    Http3,
}

/// The protocol that a download begins with: HTTP/3 where there is a client for it.
pub fn first_protocol(http3: &Option<Http3Plan>) -> (p: Protocol)
    ensures
        p == (if http3 is Some {
            Protocol::Http3
        } else {
            Protocol::Http2
        }),
{
    match http3 {
        Some(_) => Protocol::Http3,
        None => Protocol::Http2,
    }
}

/// The protocol to try after a connection failed; none where the failure counts. From
/// HTTP/3 a download goes on with HTTP/2 if the settings allow it, and never back.
pub fn protocol_after_failure(current: Protocol, fallback: bool) -> (p: Option<Protocol>)
    ensures
        p == (if current == Protocol::Http3 && fallback {
            Some(Protocol::Http2)
        } else {
            None
        }),
{
    if current == Protocol::Http3 && fallback {
        Some(Protocol::Http2)
    } else {
        None
    }
}

/// As many idle connections are kept as there may be downloads, within one and 32: more
/// downloads never mean fewer connections.
pub proof fn law_idle_connections(max_concurrent: usize, more: usize)
    requires
        max_concurrent <= more,
    ensures
        1 <= idle_connections(max_concurrent) <= 32,
        1 <= max_concurrent <= 32 ==> idle_connections(max_concurrent) == max_concurrent,
        max_concurrent > 32 ==> idle_connections(max_concurrent) == 32,
        idle_connections(max_concurrent) <= idle_connections(more),
{
}

/// Who wants no proxy gets none, whatever else is set. Otherwise the proxy that is set is used
/// if it is an absolute URL, and else that of the system.
pub proof fn law_proxy_of_the_settings(o: DownloadOptions)
    ensures
        o.proxy_choice() == ProxyChoice::Direct <==> o.no_proxy,
        o.proxy_choice() is Through <==> !o.no_proxy && o.proxy is Some && hosts::parsed_url(
            o.proxy->0@,
        ) is Some,
        o.proxy_choice() matches ProxyChoice::Through(url) ==> o.proxy == Some(url),
{
}

} // verus!
