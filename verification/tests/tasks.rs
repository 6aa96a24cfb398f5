use qomicex_downloader::error::DownloadError;
use qomicex_downloader::hex::{hex_encode, parse_hex_sha256};
use qomicex_downloader::task::{DestPath, DownloadOptions, DownloadTask, TimeSpan};
use qomicex_downloader::text::{decimal_text, parse_u64, white_space};

fn dest(name: Option<&str>) -> DestPath {
    DestPath { dir: "d".to_string(), file_name: name.map(|n| n.to_string()) }
}

#[test]
fn default_settings() {
    let o = DownloadOptions::default();
    assert_eq!(o.user_agent, "qomicex-downloader/0.1.0");
    assert!(o.headers.is_empty());
    assert_eq!(o.timeout, TimeSpan::from_secs(60));
    assert_eq!(o.connect_timeout, TimeSpan::from_secs(15));
    assert_eq!(o.max_retries, 5);
    assert_eq!(o.retry_base_delay, TimeSpan::from_millis(500));
    assert_eq!(o.segment_size, 8 * 1024 * 1024);
    assert_eq!(o.max_segments, 16);
    assert_eq!(o.split_threshold, 10 * 1024 * 1024);
    assert_eq!(o.watchdog_idle_timeout, TimeSpan::from_secs(30));
    assert_eq!(o.watchdog_slow_samples, 5);
    assert_eq!(o.split_sample_interval, TimeSpan::from_secs(2));
    assert_eq!(o.progress_throttle, TimeSpan::from_millis(150));
    assert_eq!(o.global_progress_interval, TimeSpan::from_millis(250));
    assert!(!o.enable_http3 && o.http3_fallback && !o.no_proxy && !o.ignore_ssl_certs);
    assert_eq!(o.proxy, None);
}

#[test]
fn tasks_are_built() {
    let t = DownloadTask::new("u".to_string(), dest(Some("f")))
        .with_header("A".to_string(), "1".to_string())
        .with_header("B".to_string(), "2".to_string())
        .with_mirrors(vec!["m1".to_string(), "m2".to_string()])
        .with_max_segments(3)
        .with_max_retries(4)
        .with_segment_size(5)
        .with_sha256([7; 32]);
    assert_eq!(
        t.headers,
        vec![("A".to_string(), "1".to_string()), ("B".to_string(), "2".to_string())]
    );
    assert_eq!(t.urls(), vec!["u", "m1", "m2"]);
    assert_eq!(t.sha256, Some([7; 32]));
    let l = t.limits(&DownloadOptions::default());
    assert_eq!((l.max_segments, l.max_retries, l.segment_size), (3, 4, 5));
    assert_eq!(l.split_threshold, 10 * 1024 * 1024);
    let plain = DownloadTask::new("u".to_string(), dest(None));
    let l = plain.limits(&DownloadOptions::default());
    assert_eq!((l.max_segments, l.max_retries, l.segment_size), (16, 5, 8 * 1024 * 1024));
}

#[test]
fn partial_files_have_their_names() {
    let t = DownloadTask::new("u".to_string(), dest(Some("a.bin")));
    assert_eq!(t.part_path(), dest(Some("a.bin.part")));
    let t = DownloadTask::new("u".to_string(), dest(None));
    assert_eq!(t.part_path(), dest(Some("download.part")));
}

#[test]
fn digests_in_hexadecimal() {
    let text = "00ff10AbCd".to_string() + &"0".repeat(54);
    let d = parse_hex_sha256(&text).unwrap();
    assert_eq!(d[..5], [0x00, 0xff, 0x10, 0xab, 0xcd]);
    assert_eq!(hex_encode(&d), text.to_lowercase());
    assert_eq!(parse_hex_sha256(&format!("  {text}\n")), Some(d));
    assert_eq!(parse_hex_sha256(&text[1..]), None);
    assert_eq!(parse_hex_sha256(&text.replace('f', "g")), None);
    assert_eq!(parse_hex_sha256(""), None);
    let t = DownloadTask::new("u".to_string(), dest(None));
    assert_eq!(t.clone().with_sha256_hex(&text).sha256, Some(d));
    assert_eq!(t.with_sha256([1; 32]).with_sha256_hex("nonsense").sha256, None);
}

#[test]
fn non_ascii_text_is_no_digest() {
    let mut wide = "é".repeat(32);
    assert_eq!(wide.len(), 64);
    assert_eq!(parse_hex_sha256(&wide), None);
    wide = "0".repeat(62) + "é";
    assert_eq!(parse_hex_sha256(&wide), None);
    let padded = format!("\u{3000}{}\u{2003}", "ab".repeat(32));
    assert_eq!(parse_hex_sha256(&padded), Some([0xab; 32]));
}

#[test]
fn white_space_is_that_of_unicode() {
    for u in 0..=0x10ffffu32 {
        if let Some(c) = char::from_u32(u) {
            assert_eq!(white_space(c), c.is_whitespace(), "{u:x}");
        }
    }
}

#[test]
fn numbers_are_written_and_read() {
    for n in [0u64, 7, 10, 99, 100, 12345, u64::MAX] {
        let t = decimal_text(n);
        assert_eq!(t, n.to_string());
        assert_eq!(parse_u64(t.as_bytes(), 0), Some(n));
    }
    for t in ["", "+", "-1", " 1", "1 ", "18446744073709551616", "1a", "++1", "٣"] {
        assert_eq!(parse_u64(t.as_bytes(), 0), t.parse::<u64>().ok());
    }
    for t in ["+5", "007", "+0"] {
        assert_eq!(parse_u64(t.as_bytes(), 0), t.parse::<u64>().ok());
    }
    assert_eq!(parse_u64(b"x/42", 2), Some(42));
}

#[test]
fn error_messages() {
    let s = |t: &str| t.to_string();
    let cases = [
        (DownloadError::Http(s("e")), "HTTP 请求失败: e"),
        (
            DownloadError::HttpStatus { status: 404, url: s("u") },
            "服务器返回错误状态 404 (url: u)",
        ),
        (DownloadError::Io(s("e")), "IO 错误: e"),
        (DownloadError::TaskNotFound(7), "任务不存在: 7"),
        (DownloadError::Cancelled, "下载已取消"),
        (
            DownloadError::Incomplete { expected: 2, actual: 1 },
            "下载数据不完整: 期望 2 字节, 实际 1 字节",
        ),
        (
            DownloadError::ChecksumMismatch { expected: s("a"), actual: s("b") },
            "SHA-256 校验失败: 期望 a, 实际 b",
        ),
        (DownloadError::Exhausted(s("e")), "所有重试均已耗尽: e"),
        (DownloadError::Other(s("e")), "e"),
    ];
    for (error, text) in cases {
        assert_eq!(error.message(), text);
        assert_eq!(error.copied(), error);
    }
}

#[test]
fn time_spans() {
    assert_eq!(TimeSpan::from_secs(2).as_millis(), 2000);
    assert_eq!(TimeSpan { nanos: 1_999_999 }.as_millis(), 1);
    assert!(TimeSpan::from_millis(2).exceeds(&TimeSpan { nanos: 1_999_999 }));
    assert!(!TimeSpan::from_millis(2).exceeds(&TimeSpan::from_millis(2)));
}
