//! What can go wrong with a download, and how it is told to the user.
use vstd::prelude::*;

use crate::text;
use crate::text::decimal_text;

verus! {

/// An error of the download core.
#[derive(Clone, Debug, PartialEq, Eq)]
pub enum DownloadError {
    /// The request itself failed (connection, timeout, TLS); the text says how.
    Http(String),
    /// The server answered with a status that is not a success.
    HttpStatus { status: u16, url: String },
    /// The file system failed; the text says how.
    Io(String),
    /// There is no task with this id.
    TaskNotFound(u64),
    /// The download was paused, cancelled or shut down.
    Cancelled,
    /// Fewer or more bytes arrived than the file has.
    Incomplete { expected: u64, actual: u64 },
    /// The file does not have the expected SHA-256 digest.
    ChecksumMismatch { expected: String, actual: String },
    /// Retries and mirrors are used up.
    Exhausted(String),
    /// Anything else, such as an operation that the task's state does not allow.
    Other(String),
}

impl DownloadError {
    /// The text that describes the error.
    pub open spec fn text(self) -> Seq<char> {
        match self {
            DownloadError::Http(e) => "HTTP 请求失败: "@ + e@,
            DownloadError::HttpStatus { status, url } => "服务器返回错误状态 "@ + text::decimal(
                status as nat,
            ) + " (url: "@ + url@ + ")"@,
            DownloadError::Io(e) => "IO 错误: "@ + e@,
            DownloadError::TaskNotFound(id) => "任务不存在: "@ + text::decimal(id as nat),
            DownloadError::Cancelled => "下载已取消"@,
            DownloadError::Incomplete { expected, actual } => "下载数据不完整: 期望 "@
                + text::decimal(expected as nat) + " 字节, 实际 "@ + text::decimal(actual as nat)
                + " 字节"@,
            DownloadError::ChecksumMismatch { expected, actual } => "SHA-256 校验失败: 期望 "@
                + expected@ + ", 实际 "@ + actual@,
            DownloadError::Exhausted(e) => "所有重试均已耗尽: "@ + e@,
            DownloadError::Other(e) => e@,
        }
    }

    /// The same error once more.
    pub fn copied(&self) -> (e: Self)
        ensures
            e == *self,
    {
        match self {
            DownloadError::Http(e) => DownloadError::Http(e.clone()),
            DownloadError::HttpStatus { status, url } => DownloadError::HttpStatus {
                status: *status,
                url: url.clone(),
            },
            DownloadError::Io(e) => DownloadError::Io(e.clone()),
            DownloadError::TaskNotFound(id) => DownloadError::TaskNotFound(*id),
            DownloadError::Cancelled => DownloadError::Cancelled,
            DownloadError::Incomplete { expected, actual } => DownloadError::Incomplete {
                expected: *expected,
                actual: *actual,
            },
            DownloadError::ChecksumMismatch { expected, actual } => DownloadError::ChecksumMismatch {
                expected: expected.clone(),
                actual: actual.clone(),
            },
            DownloadError::Exhausted(e) => DownloadError::Exhausted(e.clone()),
            DownloadError::Other(e) => DownloadError::Other(e.clone()),
        }
    }

    /// Describes the error.
    pub fn message(&self) -> (s: String)
        ensures
            s@ == self.text(),
    {
        match self {
            DownloadError::Http(e) => "HTTP 请求失败: ".to_owned().concat(e.as_str()),
            DownloadError::HttpStatus { status, url } => "服务器返回错误状态 ".to_owned().concat(
                decimal_text(*status as u64).as_str(),
            ).concat(" (url: ").concat(url.as_str()).concat(")"),
            DownloadError::Io(e) => "IO 错误: ".to_owned().concat(e.as_str()),
            DownloadError::TaskNotFound(id) => "任务不存在: ".to_owned().concat(
                decimal_text(*id).as_str(),
            ),
            DownloadError::Cancelled => "下载已取消".to_owned(),
            DownloadError::Incomplete { expected, actual } => "下载数据不完整: 期望 ".to_owned().concat(
                decimal_text(*expected).as_str(),
            ).concat(" 字节, 实际 ").concat(decimal_text(*actual).as_str()).concat(" 字节"),
            DownloadError::ChecksumMismatch { expected, actual } => "SHA-256 校验失败: 期望 ".to_owned().concat(
                expected.as_str(),
            ).concat(", 实际 ").concat(actual.as_str()),
            DownloadError::Exhausted(e) => "所有重试均已耗尽: ".to_owned().concat(e.as_str()),
            DownloadError::Other(e) => e.clone(),
        }
    }
}

/// `t` ends with `s`.
pub open spec fn ends_with(t: Seq<char>, s: Seq<char>) -> bool {
    s.len() <= t.len() && t.skip(t.len() - s.len()) == s
}

/// Where an error comes with a text, its description ends with it, and is that text alone only
/// where nothing else is known of the error.
pub proof fn law_descriptions_tell_the_reason(reason: String)
    ensures
        ends_with(DownloadError::Http(reason).text(), reason@),
        ends_with(DownloadError::Io(reason).text(), reason@),
        ends_with(DownloadError::Exhausted(reason).text(), reason@),
        DownloadError::Other(reason).text() == reason@,
        DownloadError::Http(reason).text() == "HTTP 请求失败: "@ + reason@,
        DownloadError::Io(reason).text() == "IO 错误: "@ + reason@,
        DownloadError::Exhausted(reason).text() == "所有重试均已耗尽: "@ + reason@,
        DownloadError::Cancelled.text() == "下载已取消"@,
{
    let h = DownloadError::Http(reason).text();
    assert(h.skip(h.len() - reason@.len()) =~= reason@);
    let i = DownloadError::Io(reason).text();
    assert(i.skip(i.len() - reason@.len()) =~= reason@);
    let x = DownloadError::Exhausted(reason).text();
    assert(x.skip(x.len() - reason@.len()) =~= reason@);
}

/// The description of an error tells the numbers and texts that it comes with.
pub proof fn law_descriptions_tell_the_details(
    status: u16,
    url: String,
    id: u64,
    expected: u64,
    actual: u64,
    wanted: String,
    found: String,
)
    ensures
        (DownloadError::HttpStatus { status, url }).text() == "服务器返回错误状态 "@ + text::decimal(
            status as nat,
        ) + " (url: "@ + url@ + ")"@,
        DownloadError::TaskNotFound(id).text() == "任务不存在: "@ + text::decimal(id as nat),
        (DownloadError::Incomplete { expected, actual }).text() == "下载数据不完整: 期望 "@
            + text::decimal(expected as nat) + " 字节, 实际 "@ + text::decimal(actual as nat)
            + " 字节"@,
        (DownloadError::ChecksumMismatch { expected: wanted, actual: found }).text()
            == "SHA-256 校验失败: 期望 "@ + wanted@ + ", 实际 "@ + found@,
{
}

} // verus!
