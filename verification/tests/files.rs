use qomicex_downloader::bridge::{
    added_json, failed_json, list_json, op_result, pairs_or_none, parse_headers, requested_task,
    state_name, task_json,
};
use qomicex_downloader::digest::{check_digest, finalize_verified, FileDigest, Publish};
use qomicex_downloader::error::DownloadError;
use qomicex_downloader::hex::hex_encode;
use qomicex_downloader::manager::DownloadManager;
use qomicex_downloader::task::{DestPath, DownloadOptions, DownloadTask, TaskState};
use sha2::{Digest, Sha256};

fn dest() -> DestPath {
    DestPath { dir: "d".to_string(), file_name: Some("f".to_string()) }
}

#[test]
fn digests_of_pieces() {
    let mut d = FileDigest::new();
    d.feed(b"ab");
    d.feed(b"");
    d.feed(b"c");
    let got = d.finish();
    assert_eq!(
        hex_encode(&got),
        "ba7816bf8f01cfea414140de5dae2223b00361a396177a9cb410ff61f20015ad"
    );
    let whole: [u8; 32] = Sha256::digest(b"abc").into();
    assert_eq!(got, whole);
    assert_eq!(
        hex_encode(&FileDigest::new().finish()),
        "e3b0c44298fc1c149afbf4c8996fb92427ae41e4649b934ca495991b7852b855"
    );
}

#[test]
fn digests_are_compared() {
    let a = [1u8; 32];
    let mut b = a;
    b[31] = 2;
    let mismatch = DownloadError::ChecksumMismatch {
        expected: "01".repeat(32),
        actual: "01".repeat(31) + "02",
    };
    assert_eq!(check_digest(&a, &a), Ok(()));
    assert_eq!(check_digest(&a, &b), Err(mismatch.clone()));
    assert_eq!(finalize_verified(&None, &None), Ok(Publish::Open));
    assert_eq!(finalize_verified(&Some(a), &Some(a)), Ok(Publish::Open));
    assert_eq!(finalize_verified(&Some(a), &Some(b)), Err(mismatch));
}

fn bad(e: &str) -> Result<(), String> {
    Err(e.to_string())
}

#[test]
fn files_are_moved_in_one_step() {
    let p = Publish::Open.next(Ok(()), "p", "d");
    assert_eq!(p, Publish::Sync);
    let p = p.next(Ok(()), "p", "d");
    assert_eq!(p, Publish::Rename);
    assert_eq!(p.clone().next(Ok(()), "p", "d"), Publish::Done);
    let p = p.next(bad("e1"), "p", "d");
    assert_eq!(p, Publish::ClearDest("e1".to_string()));
    let p = p.next(bad("ignored"), "p", "d");
    assert_eq!(p, Publish::RenameAgain("e1".to_string()));
    assert_eq!(p.clone().next(Ok(()), "p", "d"), Publish::Done);
    assert_eq!(
        p.next(bad("e2"), "p", "d"),
        Publish::Failed(DownloadError::Other("rename p -> d 失败: e1 / e2".to_string()))
    );
    assert_eq!(
        Publish::Open.next(bad("e"), "p", "d"),
        Publish::Failed(DownloadError::Other("finalize 打开 p 失败: e".to_string()))
    );
    assert_eq!(
        Publish::Sync.next(bad("e"), "p", "d"),
        Publish::Failed(DownloadError::Other("finalize fsync p 失败: e".to_string()))
    );
    assert_eq!(Publish::Done.next(bad("e"), "p", "d"), Publish::Done);
}

#[test]
fn states_have_names() {
    let names: Vec<&str> = [
        TaskState::Queued,
        TaskState::Downloading,
        TaskState::Paused,
        TaskState::Completed,
        TaskState::Failed,
        TaskState::Cancelled,
    ]
    .into_iter()
    .map(state_name)
    .collect();
    assert_eq!(
        names,
        vec!["queued", "downloading", "paused", "completed", "failed", "cancelled"]
    );
}

#[test]
fn headers_are_read_from_lists() {
    let pairs = vec![
        ("A".to_string(), "1".to_string()),
        ("B".to_string(), "two \"quoted\" 二".to_string()),
    ];
    assert_eq!(parse_headers(r#" [["A","1"],["B","two \"quoted\" 二"]] "#), pairs);
    for text in ["", " \n\t", "nonsense", "[[\"a\"]]", "[[\"a\",\"b\",\"c\"]]", "{}", "[[1,2]]"] {
        assert!(parse_headers(text).is_empty(), "{text}");
    }
    assert!(parse_headers("[]").is_empty());
    assert_eq!(pairs_or_none(Some(pairs.clone())), pairs);
    assert!(pairs_or_none(None).is_empty());
}

#[test]
fn tasks_are_requested() {
    let headers = vec![("A".to_string(), "1".to_string()), ("B".to_string(), "2".to_string())];
    let hex = "ab".repeat(32);
    let t = requested_task("u".to_string(), dest(), &hex, headers.clone());
    let expected = DownloadTask::new("u".to_string(), dest())
        .with_sha256([0xab; 32])
        .with_header("A".to_string(), "1".to_string())
        .with_header("B".to_string(), "2".to_string());
    assert_eq!(t, expected);
    assert_eq!(requested_task("u".to_string(), dest(), "", headers).sha256, None);
    assert_eq!(requested_task("u".to_string(), dest(), "x", Vec::new()).sha256, None);
}

#[test]
fn tasks_are_told_as_json() {
    let mut m = DownloadManager::new(DownloadOptions::default(), 4);
    assert_eq!(list_json(&m), "[]");
    let a = m.add(DownloadTask::new("u".to_string(), dest()));
    let b = m.add(DownloadTask::new("u".to_string(), dest()));
    m.dispatch();
    m.count_bytes(a, 10);
    m.set_total(a, 20);
    m.set_active_segments(a, 3);
    let told: serde_json::Value = serde_json::from_str(&task_json(&m, a)).unwrap();
    assert_eq!(told["id"], 1);
    assert_eq!(told["status"], "downloading");
    assert_eq!(told["downloaded"], 10);
    assert_eq!(told["total"], 20);
    assert_eq!(told["activeSegments"], 3);
    assert_eq!(told.to_string(), task_json(&m, a));
    let list: serde_json::Value = serde_json::from_str(&list_json(&m)).unwrap();
    assert_eq!(list.as_array().unwrap().len(), 2);
    assert_eq!(list[1]["id"], b);
    assert_eq!(list.to_string(), list_json(&m));
    assert_eq!(
        task_json(&m, 9),
        "{\"activeSegments\":0,\"downloaded\":0,\"id\":9,\"status\":\"failed\",\"total\":0}"
    );
    assert_eq!(added_json(7), "{\"id\":7}");
}

#[test]
fn results_are_told_as_json() {
    assert_eq!(op_result(&Ok(())), "{\"ok\":true}");
    let nasty = "say \"hi\"\\\n二".to_string();
    let text = op_result(&Err(DownloadError::Other(nasty.clone())));
    let told: serde_json::Value = serde_json::from_str(&text).unwrap();
    assert_eq!(told["ok"], false);
    assert_eq!(told["error"], nasty);
    assert_eq!(told.to_string(), text);
    assert_eq!(failed_json("\"x\""), "{\"error\":\"x\",\"ok\":false}");
}
