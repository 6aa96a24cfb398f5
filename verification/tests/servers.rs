use qomicex_downloader::client::{
    choose_proxy, first_protocol, plan_client, plan_http3, protocol_after_failure, Protocol,
    ProxyChoice, MAX_FRAME_SIZE,
};
use qomicex_downloader::error::DownloadError;
use qomicex_downloader::headers::{
    accept_ranges_bytes, content_length, content_range_total, merge_headers, read_accept_ranges,
    read_content_range, read_length, SAFE_HEADER_COUNT,
};
use qomicex_downloader::hosts::{host_of, host_or_text, is_absolute_url, HostCache};
use qomicex_downloader::plan::{
    judge_first_byte, judge_head, plan_cached, plan_probed, probe_done_message,
    probe_failed_message, redownload_message, AfterRun, HeadVerdict, ProbeResult,
    Probing, Redownload, RunPlan,
};
use qomicex_downloader::retry::UrlRing;
use qomicex_downloader::task::{DownloadOptions, TimeSpan};
use reqwest::header::{HeaderMap, HeaderValue};

fn pair(a: &str, b: &str) -> (String, String) {
    (a.to_string(), b.to_string())
}

fn map(name: &'static str, value: &str) -> HeaderMap {
    let mut m = HeaderMap::new();
    m.insert(name, HeaderValue::from_bytes(value.as_bytes()).unwrap());
    m
}

#[test]
fn own_headers_take_precedence() {
    let shared = vec![pair("X-Global", "g"), pair("X-Both", "shared"), pair("bad name", "v")];
    let own = vec![pair("x-both", "own"), pair("X-Task", "yes"), pair("X-Bad", "a\nb")];
    let m = merge_headers(&shared, &own).unwrap();
    assert_eq!(m.len(), 3);
    assert_eq!(m.get("x-global").unwrap(), "g");
    assert_eq!(m.get("X-Both").unwrap(), "own");
    assert_eq!(m.get("x-task").unwrap(), "yes");
}

#[test]
fn header_texts_are_taken_as_they_are() {
    let names = ["a", "!#$%&'*+-.^_`|~09azAZ", "", "a b", "a:b", "ä", "a\u{7f}"];
    let values = ["", "plain", "tab\there", "é", "a\rb", "\u{7f}", "\u{0}"];
    for n in names {
        for v in values {
            let ok = reqwest::header::HeaderName::from_bytes(n.as_bytes()).is_ok()
                && HeaderValue::from_str(v).is_ok();
            let m = merge_headers(&vec![pair(n, v)], &Vec::new()).unwrap();
            assert_eq!(m.len(), ok as usize, "{n:?} {v:?}");
            if ok {
                assert_eq!(m.get(n).unwrap().as_bytes(), v.as_bytes());
            }
        }
    }
    let long = "n".repeat(65535);
    let m = merge_headers(&vec![pair(&long, "v"), pair(&(long.clone() + "n"), "v")], &Vec::new());
    assert_eq!(m.unwrap().len(), 1);
}

#[test]
fn many_headers_fit() {
    let pairs: Vec<(String, String)> =
        (0..SAFE_HEADER_COUNT).map(|i| pair(&format!("h{i}"), "v")).collect();
    assert_eq!(merge_headers(&pairs, &Vec::new()).unwrap().len(), SAFE_HEADER_COUNT);
    let pairs: Vec<(String, String)> = (0..40000).map(|i| pair(&format!("h{i}"), "v")).collect();
    assert!(merge_headers(&pairs, &Vec::new()).is_none());
    let same: Vec<(String, String)> = (0..40000).map(|i| pair("h", &format!("{i}"))).collect();
    let m = merge_headers(&same, &same).unwrap();
    assert_eq!(m.len(), 1);
    assert_eq!(m.get("h").unwrap(), "39999");
}

#[test]
fn lengths_are_read() {
    assert_eq!(content_length(&map("content-length", "1234")), Some(1234));
    assert_eq!(content_length(&map("content-length", "12x")), None);
    assert_eq!(content_length(&map("content-length", "é")), None);
    assert_eq!(content_length(&HeaderMap::new()), None);
    let mut twice = map("content-length", "1");
    twice.append("content-length", HeaderValue::from_static("2"));
    assert_eq!(content_length(&twice), Some(1));
    assert_eq!(read_length(Some(b"77".to_vec())), Some(77));
    assert_eq!(read_length(None), None);
}

#[test]
fn offered_ranges_are_read() {
    assert!(accept_ranges_bytes(&map("accept-ranges", "bytes")));
    assert!(accept_ranges_bytes(&map("accept-ranges", "x, BYTES")));
    assert!(!accept_ranges_bytes(&map("accept-ranges", "none")));
    assert!(!accept_ranges_bytes(&map("accept-ranges", "byte")));
    assert!(!accept_ranges_bytes(&map("accept-ranges", "bytes é")));
    assert!(!accept_ranges_bytes(&HeaderMap::new()));
    assert!(read_accept_ranges(Some(b"bYtEs".to_vec())));
    assert!(!read_accept_ranges(None));
}

#[test]
fn whole_sizes_are_read() {
    assert_eq!(content_range_total(&map("content-range", "bytes 0-0/1234")), Some(1234));
    assert_eq!(content_range_total(&map("content-range", "bytes 0-0/*")), None);
    assert_eq!(content_range_total(&map("content-range", "a/1/22")), Some(22));
    assert_eq!(content_range_total(&map("content-range", "33")), Some(33));
    assert_eq!(content_range_total(&map("content-range", "1/")), None);
    assert_eq!(content_range_total(&HeaderMap::new()), None);
    assert_eq!(read_content_range(Some(b"/5".to_vec())), Some(5));
    assert_eq!(read_content_range(None), None);
}

#[test]
fn hosts_are_told_apart() {
    assert_eq!(host_of("https://CDN.Example.com:8443/a/b?c"), "cdn.example.com");
    assert_eq!(host_of("http://127.0.0.1:1/x"), "127.0.0.1");
    assert_eq!(host_of("not a url"), "not a url");
    assert_eq!(host_of("mailto:someone"), "mailto:someone");
    assert_eq!(host_or_text("u", Some(Some("h".to_string()))), "h");
    assert_eq!(host_or_text("u", Some(None)), "u");
    assert_eq!(host_or_text("u", None), "u");
    assert!(is_absolute_url("socks5://127.0.0.1:1080"));
    assert!(!is_absolute_url("/relative"));
}

#[test]
fn hosts_are_remembered() {
    let mut c = HostCache::new();
    let a = "a".to_string();
    let b = "b".to_string();
    assert_eq!(c.get(&a), None);
    c.insert(a.clone(), true);
    c.insert(b.clone(), false);
    assert_eq!((c.get(&a), c.get(&b)), (Some(true), Some(false)));
    c.insert(a.clone(), false);
    assert_eq!(c.get(&a), Some(false));
    c.remove(&a);
    c.remove(&a);
    assert_eq!((c.get(&a), c.get(&b)), (None, Some(false)));
}

#[test]
fn head_answers_are_judged() {
    let known = |total, range_ok| HeadVerdict::Known(ProbeResult { total, range_ok });
    assert_eq!(judge_head(Some(200), Some(5), true, "u"), known(Some(5), true));
    assert_eq!(judge_head(Some(204), None, false, "u"), known(None, false));
    assert_eq!(
        judge_head(Some(503), None, false, "u"),
        HeadVerdict::Fail(DownloadError::HttpStatus { status: 503, url: "u".to_string() })
    );
    assert_eq!(judge_head(Some(405), None, false, "u"), HeadVerdict::AskRange);
    assert_eq!(judge_head(None, Some(5), true, "u"), HeadVerdict::AskRange);
}

#[test]
fn first_byte_answers_are_judged() {
    assert_eq!(
        judge_first_byte(206, Some(9), Some(1), "u"),
        Ok(ProbeResult { total: Some(9), range_ok: true })
    );
    assert_eq!(
        judge_first_byte(200, Some(9), Some(1), "u"),
        Ok(ProbeResult { total: Some(1), range_ok: false })
    );
    assert_eq!(
        judge_first_byte(404, None, None, "u"),
        Err(DownloadError::HttpStatus { status: 404, url: "u".to_string() })
    );
}

#[test]
fn each_url_is_asked_once() {
    let urls: Vec<String> = vec!["a".to_string(), "b".to_string()];
    let mut ring = UrlRing::new(urls.clone());
    let mut p = Probing::new(&ring);
    let bad = || DownloadError::Http("x".to_string());
    assert_eq!(p.failed(&mut ring, bad()), None);
    assert_eq!(ring.current_url(), "b");
    assert_eq!(p.failed(&mut ring, DownloadError::Cancelled), Some(DownloadError::Cancelled));
    assert_eq!(ring.urls, urls);
    let mut single = UrlRing::new(vec!["a".to_string()]);
    let mut p = Probing::new(&single);
    assert_eq!(p.failed(&mut single, bad()), Some(bad()));
}

#[test]
fn downloads_are_planned() {
    let plan = |total, range_ok| plan_probed(&ProbeResult { total, range_ok });
    assert_eq!(plan(Some(5), true), RunPlan::Ranged { total: 5 });
    assert_eq!(plan(Some(5), false), RunPlan::Streamed { total: 5 });
    assert_eq!(plan(Some(0), true), RunPlan::Streamed { total: 0 });
    assert_eq!(plan(None, true), RunPlan::Streamed { total: 0 });
    assert_eq!(plan_cached(true, Some(11), 10), RunPlan::Ranged { total: 11 });
    assert_eq!(plan_cached(true, Some(10), 10), RunPlan::Streamed { total: 10 });
    assert_eq!(plan_cached(false, Some(11), 10), RunPlan::Streamed { total: 11 });
    assert_eq!(plan_cached(true, None, 10), RunPlan::Streamed { total: 0 });
}

#[test]
fn a_wrong_digest_is_fetched_once_more() {
    let mut r = Redownload::new();
    let wrong = || {
        Err(DownloadError::ChecksumMismatch { expected: "a".to_string(), actual: "b".to_string() })
    };
    assert_eq!(r.after(&wrong()), AfterRun::DiscardAndRepeat);
    assert_eq!(r.after(&wrong()), AfterRun::DiscardAndReturn);
    assert_eq!(r.after(&Ok(())), AfterRun::Return);
    let mut r = Redownload::new();
    assert_eq!(r.after(&Err(DownloadError::Cancelled)), AfterRun::Return);
    assert_eq!(redownload_message(), "SHA-256 校验失败，删除 .part 自动重下");
}

#[test]
fn probe_log_messages() {
    assert_eq!(
        probe_done_message(&ProbeResult { total: Some(7), range_ok: true }),
        format!("探测完成: total={:?}, range={}", Some(7), true)
    );
    assert_eq!(
        probe_done_message(&ProbeResult { total: None, range_ok: false }),
        "探测完成: total=None, range=false"
    );
    assert_eq!(probe_failed_message("u", &DownloadError::Cancelled), "探测 u 失败: 下载已取消");
}

#[test]
fn client_settings() {
    let mut o = DownloadOptions::default();
    let p = plan_client(&o, 0);
    assert_eq!(p.pool_max_idle_per_host, 1);
    assert_eq!(plan_client(&o, 8).pool_max_idle_per_host, 8);
    assert_eq!(plan_client(&o, 64).pool_max_idle_per_host, 32);
    assert_eq!(p.timeout, TimeSpan::from_secs(60));
    assert_eq!(p.connect_timeout, TimeSpan::from_secs(15));
    assert_eq!(p.pool_idle_timeout, TimeSpan::from_secs(60));
    assert_eq!(p.tcp_keepalive, TimeSpan::from_secs(30));
    assert_eq!(p.http2_max_frame_size, (1 << 24) - 1);
    assert_eq!(p.http2_max_frame_size, MAX_FRAME_SIZE);
    assert!(p.http2_adaptive_window && !p.accept_invalid_certs);
    assert_eq!(p.user_agent, "qomicex-downloader/0.1.0");
    assert_eq!(p.proxy, ProxyChoice::System);
    o.proxy = Some("http://127.0.0.1:7890".to_string());
    o.ignore_ssl_certs = true;
    let p = plan_client(&o, 1);
    assert_eq!(p.proxy, ProxyChoice::Through("http://127.0.0.1:7890".to_string()));
    assert!(p.accept_invalid_certs);
    o.no_proxy = true;
    assert_eq!(plan_client(&o, 1).proxy, ProxyChoice::Direct);
    o.no_proxy = false;
    o.proxy = Some("no url".to_string());
    assert_eq!(plan_client(&o, 1).proxy, ProxyChoice::System);
    assert_eq!(choose_proxy(false, None, true), ProxyChoice::System);
}

#[test]
fn http3_settings() {
    let mut o = DownloadOptions::default();
    assert_eq!(plan_http3(&o, 4, true), None);
    o.enable_http3 = true;
    assert_eq!(plan_http3(&o, 4, false), None);
    let p = plan_http3(&o, 64, true);
    assert_eq!(first_protocol(&p), Protocol::Http3);
    let p = p.unwrap();
    assert_eq!(p.timeout, TimeSpan::from_secs(60));
    assert_eq!(p.connect_timeout, TimeSpan::from_secs(15));
    assert_eq!(p.pool_idle_timeout, TimeSpan::from_secs(60));
    assert_eq!(p.pool_max_idle_per_host, 32);
    assert_eq!(p.user_agent, "qomicex-downloader/0.1.0");
    assert_eq!(p.tcp_keepalive, TimeSpan::from_secs(30));
    assert!(!p.accept_invalid_certs && p.fallback);
    assert_eq!(p.proxy, ProxyChoice::System);
    o.proxy = Some("http://proxy.example:3128".to_string());
    let through = ProxyChoice::Through("http://proxy.example:3128".to_string());
    assert_eq!(plan_http3(&o, 64, true).unwrap().proxy, through);
    o.proxy = Some("proxy".to_string());
    assert_eq!(plan_http3(&o, 64, true).unwrap().proxy, ProxyChoice::System);
    o.no_proxy = true;
    assert_eq!(plan_http3(&o, 64, true).unwrap().proxy, ProxyChoice::Direct);
    assert_eq!(first_protocol(&None), Protocol::Http2);
    assert_eq!(protocol_after_failure(Protocol::Http3, true), Some(Protocol::Http2));
    assert_eq!(protocol_after_failure(Protocol::Http3, false), None);
    assert_eq!(protocol_after_failure(Protocol::Http2, true), None);
}
