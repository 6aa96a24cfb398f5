//! Checking a finished file and moving it to its destination.
use sha2::Digest;
use vstd::prelude::*;

use crate::error::DownloadError;
use crate::hex;
use crate::hex::hex_encode;

verus! {

/// A SHA-256 computation.
#[verifier::external_type_specification]
#[verifier::external_body]
pub struct ExSha256(sha2::Sha256);

/// The bytes that a SHA-256 computation has taken in.
pub uninterp spec fn absorbed(hasher: sha2::Sha256) -> Seq<u8>;

/// The SHA-256 digest of `bytes`, as `sha2::Sha256` computes it.
pub uninterp spec fn sha256_of(bytes: Seq<u8>) -> Seq<u8>;

/// SHA-256 is defined for fewer bytes than this.
pub const SHA256_LIMIT: u64 = 0x2000_0000_0000_0000;

/// A computation that has taken in nothing, from `sha2::Sha256::new`.
#[verifier::external_body]
fn new_hasher() -> (h: sha2::Sha256)
    ensures
        absorbed(h).len() == 0,
{
    sha2::Sha256::new()
}

/// Takes in more bytes, with `sha2::Sha256::update`: they follow those before.
#[verifier::external_body]
fn absorb(hasher: &mut sha2::Sha256, bytes: &[u8])
    requires
        absorbed(*old(hasher)).len() + bytes@.len() < SHA256_LIMIT,
    ensures
        absorbed(*final(hasher)) == absorbed(*old(hasher)) + bytes@,
{
    hasher.update(bytes);
}

/// The digest of what has been taken in, from `sha2::Sha256::finalize`. It depends on
/// those bytes alone, not on how they were split up.
#[verifier::external_body]
fn digest_of(hasher: sha2::Sha256) -> (d: [u8; 32])
    requires
        absorbed(hasher).len() < SHA256_LIMIT,
    ensures
        d@ == sha256_of(absorbed(hasher)),
{
    hasher.finalize().into()
}

/// The digest of a file that is read piece by piece.
pub struct FileDigest {
    hasher: sha2::Sha256,
}

impl View for FileDigest {
    type V = Seq<u8>;

    /// The bytes read.
    closed spec fn view(&self) -> Seq<u8> {
        absorbed(self.hasher)
    }
}

impl FileDigest {
    /// Nothing has been read.
    pub fn new() -> (d: Self)
        ensures
            d@ == Seq::<u8>::empty(),
    {
        let d = FileDigest { hasher: new_hasher() };
        assert(d@ =~= Seq::<u8>::empty());
        d
    }

    /// Takes in the next piece of the file.
    pub fn feed(&mut self, piece: &[u8])
        requires
            old(self)@.len() + piece@.len() < SHA256_LIMIT,
        ensures
            final(self)@ == old(self)@ + piece@,
    {
        absorb(&mut self.hasher, piece);
    }

    /// The digest of the file.
    pub fn finish(self) -> (d: [u8; 32])
        requires
            self@.len() < SHA256_LIMIT,
        ensures
            d@ == sha256_of(self@),
    {
        digest_of(self.hasher)
    }
}

/// Whether two digests are the same.
fn same_digest(a: &[u8; 32], b: &[u8; 32]) -> (r: bool)
    ensures
        r == (a@ == b@),
{
    let mut i: usize = 0;
    while i < 32
        invariant
            0 <= i <= 32,
            forall|k: int| 0 <= k < i ==> a@[k] == b@[k],
        decreases 32 - i,
    {
        if a[i] != b[i] {
            assert(a@[i as int] != b@[i as int]);
            return false;
        }
        i = i + 1;
    }
    assert(a@ =~= b@);
    true
}

/// Checks the digest of a file. A mismatch is reported with both digests in
/// hexadecimal.
pub fn check_digest(expected: &[u8; 32], actual: &[u8; 32]) -> (r: Result<(), DownloadError>)
    ensures
        r is Ok <==> actual@ == expected@,
        r is Err ==> (r->Err_0 matches DownloadError::ChecksumMismatch {
            expected: e,
            actual: a,
        } && e@ == hex::hex_text(expected@) && a@ == hex::hex_text(actual@)),
{
    if same_digest(actual, expected) {
        Ok(())
    } else {
        Err(
            DownloadError::ChecksumMismatch {
                expected: hex_encode(expected.as_slice()),
                actual: hex_encode(actual.as_slice()),
            },
        )
    }
}

/// Decides whether a finished file may be moved to its destination, given its digest
/// where one is expected: a file with another digest stays where it is.
pub fn finalize_verified(expected: &Option<[u8; 32]>, actual: &Option<[u8; 32]>) -> (r: Result<
    Publish,
    DownloadError,
>)
    requires
        expected is Some ==> actual is Some,
    ensures
        r is Ok <==> (expected is None || expected->0@ == actual->0@),
        r is Ok ==> r->Ok_0 == Publish::Open,
        r is Err ==> (r->Err_0 matches DownloadError::ChecksumMismatch {
            expected: e,
            actual: a,
        } && e@ == hex::hex_text(expected->0@) && a@ == hex::hex_text(actual->0@)),
{
    match (expected, actual) {
        (Some(e), Some(a)) => match check_digest(e, a) {
            Ok(_) => Ok(Publish::Open),
            Err(err) => Err(err),
        },
        _ => Ok(Publish::Open),
    }
}

/// How far a finished file has come on its way to its destination.
#[derive(Clone, Debug, PartialEq, Eq)]
pub enum Publish {
    /// The partial file is to be opened, for writing too.
    Open,
    /// It is to be written through to the disk.
    Sync,
    /// It is to be renamed.
    Rename,
    /// It could not be renamed, for this reason; what stands in its way is to be
    /// deleted.
    ClearDest(String),
    /// It is to be renamed once more.
    RenameAgain(String),
    /// It stands at its destination.
    Done,
    /// It could not be moved.
    Failed(DownloadError),
}

impl Publish {
    /// The next step after this one went as `outcome` says is `r`.
    pub open spec fn next_is(
        self,
        outcome: Result<(), String>,
        part: Seq<char>,
        dest: Seq<char>,
        r: Publish,
    ) -> bool {
        match (self, outcome) {
            (Publish::Open, Ok(_)) => r == Publish::Sync,
            (Publish::Open, Err(e)) => fails_with(r, "finalize 打开 "@ + part + " 失败: "@ + e@),
            (Publish::Sync, Ok(_)) => r == Publish::Rename,
            (Publish::Sync, Err(e)) => fails_with(r, "finalize fsync "@ + part + " 失败: "@ + e@),
            (Publish::Rename, Ok(_)) => r == Publish::Done,
            (Publish::Rename, Err(e)) => r == Publish::ClearDest(e),
            (Publish::ClearDest(e), _) => r == Publish::RenameAgain(e),
            (Publish::RenameAgain(_), Ok(_)) => r == Publish::Done,
            (Publish::RenameAgain(first), Err(e)) => fails_with(
                r,
                "rename "@ + part + " -> "@ + dest + " 失败: "@ + first@ + " / "@ + e@,
            ),
            (Publish::Done, _) => r == Publish::Done,
            (Publish::Failed(e), _) => r == Publish::Failed(e),
        }
    }

    /// The next step after this one went as `outcome` says. The texts of the paths
    /// are for messages.
    pub fn next(self, outcome: Result<(), String>, part: &str, dest: &str) -> (r: Self)
        ensures
            self.next_is(outcome, part@, dest@, r),
            leads(self, outcome is Ok, r),
    {
        match self {
            Publish::Open => match outcome {
                Ok(_) => Publish::Sync,
                Err(e) => Publish::Failed(
                    DownloadError::Other(
                        "finalize 打开 ".to_owned().concat(part).concat(" 失败: ").concat(e.as_str()),
                    ),
                ),
            },
            Publish::Sync => match outcome {
                Ok(_) => Publish::Rename,
                Err(e) => Publish::Failed(
                    DownloadError::Other(
                        "finalize fsync ".to_owned().concat(part).concat(" 失败: ").concat(
                            e.as_str(),
                        ),
                    ),
                ),
            },
            Publish::Rename => match outcome {
                Ok(_) => Publish::Done,
                Err(e) => Publish::ClearDest(e),
            },
            Publish::ClearDest(first) => Publish::RenameAgain(first),
            Publish::RenameAgain(first) => match outcome {
                Ok(_) => Publish::Done,
                Err(e) => Publish::Failed(
                    DownloadError::Other(
                        "rename ".to_owned().concat(part).concat(" -> ").concat(dest).concat(
                            " 失败: ",
                        ).concat(first.as_str()).concat(" / ").concat(e.as_str()),
                    ),
                ),
            },
            Publish::Done => Publish::Done,
            Publish::Failed(e) => Publish::Failed(e),
        }
    }
}

/// The file could not be moved, for this reason.
pub open spec fn fails_with(p: Publish, message: Seq<char>) -> bool {
    p matches Publish::Failed(DownloadError::Other(m)) && m@ == message
}

/// From step `a`, which went well or not, the way leads to `b`.
pub open spec fn leads(a: Publish, ok: bool, b: Publish) -> bool {
    match a {
        Publish::Open => if ok {
            b is Sync
        } else {
            b is Failed
        },
        Publish::Sync => if ok {
            b is Rename
        } else {
            b is Failed
        },
        Publish::Rename => if ok {
            b is Done
        } else {
            b is ClearDest
        },
        Publish::ClearDest(_) => b is RenameAgain,
        Publish::RenameAgain(_) => if ok {
            b is Done
        } else {
            b is Failed
        },
        Publish::Done => b is Done,
        Publish::Failed(_) => b is Failed,
    }
}

/// `steps` is a way that a file can take, with `oks` telling which steps went well.
pub open spec fn is_way(steps: Seq<Publish>, oks: Seq<bool>) -> bool {
    &&& steps.len() == oks.len() + 1
    &&& steps[0] is Open
    &&& forall|i: int|
        0 <= i < oks.len() ==> leads(#[trigger] steps[i], oks[i], steps[i + 1])
}

/// By step `k` the file has been written through to the disk.
pub open spec fn synced_before(steps: Seq<Publish>, oks: Seq<bool>, k: int) -> bool {
    exists|i: int| 0 <= i < k && #[trigger] steps[i] is Sync && oks[i]
}

/// By step `k` the file has been renamed.
pub open spec fn renamed_before(steps: Seq<Publish>, oks: Seq<bool>, k: int) -> bool {
    exists|i: int|
        0 <= i < k && (#[trigger] steps[i] is Rename || steps[i] is RenameAgain) && oks[i]
            && synced_before(steps, oks, i)
}

/// By step `k` an attempt to rename the file has failed.
pub open spec fn refused_before(steps: Seq<Publish>, oks: Seq<bool>, k: int) -> bool {
    exists|i: int| 0 <= i < k && #[trigger] steps[i] is Rename && !oks[i]
}

/// A file stands at its destination only if it was first written through to the disk
/// and then renamed, so that no incomplete file is ever found there; and what stood at
/// the destination is deleted only if renaming over it failed.
pub proof fn law_publish_is_atomic(steps: Seq<Publish>, oks: Seq<bool>, k: int)
    requires
        is_way(steps, oks),
        0 <= k < steps.len(),
    ensures
        steps[k] is Rename || steps[k] is ClearDest || steps[k] is RenameAgain ==> synced_before(
            steps,
            oks,
            k,
        ),
        steps[k] is Done ==> renamed_before(steps, oks, k),
        steps[k] is ClearDest || steps[k] is RenameAgain ==> refused_before(steps, oks, k),
    decreases k,
{
    if k > 0 {
        let p = k - 1;
        law_publish_is_atomic(steps, oks, p);
        assert(leads(steps[p], oks[p], steps[p + 1]));
        if synced_before(steps, oks, p) {
            let i = choose|i: int| 0 <= i < p && #[trigger] steps[i] is Sync && oks[i];
            assert(steps[i] is Sync);
            assert(synced_before(steps, oks, k));
        }
        if refused_before(steps, oks, p) {
            let i = choose|i: int| 0 <= i < p && #[trigger] steps[i] is Rename && !oks[i];
            assert(steps[i] is Rename);
            assert(refused_before(steps, oks, k));
        }
        if renamed_before(steps, oks, p) {
            let i = choose|i: int|
                0 <= i < p && (#[trigger] steps[i] is Rename || steps[i] is RenameAgain) && oks[i]
                    && synced_before(steps, oks, i);
            assert(steps[i] is Rename || steps[i] is RenameAgain);
            assert(renamed_before(steps, oks, k));
        }
    }
}

/// Each step of moving a file that goes well brings it on: it is opened, written through to the
/// disk, renamed, and then stands at its destination. If it cannot be renamed, what stands in
/// its way is deleted and it is tried once more. If any other step fails, or that one, the
/// file is not moved; and what has come to an end stays so.
pub proof fn law_publish_moves_on(
    p: Publish,
    outcome: Result<(), String>,
    part: Seq<char>,
    dest: Seq<char>,
    r: Publish,
)
    requires
        p.next_is(outcome, part, dest, r),
    ensures
        p is Open ==> (outcome is Ok <==> r is Sync),
        p is Sync ==> (outcome is Ok <==> r is Rename),
        p is Rename || p is RenameAgain ==> (outcome is Ok <==> r is Done),
        outcome is Err && (p is Open || p is Sync || p is RenameAgain) ==> r is Failed
            && r->Failed_0 is Other,
        p is Rename && outcome is Err ==> r == Publish::ClearDest(outcome->Err_0),
        p is ClearDest ==> r is RenameAgain && r->RenameAgain_0 == p->ClearDest_0,
        p is Done || p is Failed ==> r == p,
        r is Done ==> p is Done || (p is Rename || p is RenameAgain) && outcome is Ok,
{
}

/// The two ways to tell the next step agree.
pub proof fn law_ways_agree(
    p: Publish,
    outcome: Result<(), String>,
    part: Seq<char>,
    dest: Seq<char>,
    r: Publish,
)
    requires
        p.next_is(outcome, part, dest, r),
    ensures
        leads(p, outcome is Ok, r),
{
}

/// A failure to move a file is told with the path and the reason.
pub proof fn law_publish_tells_why_it_failed(
    p: Publish,
    reason: String,
    part: Seq<char>,
    dest: Seq<char>,
    r: Publish,
)
    requires
        p.next_is(Err(reason), part, dest, r),
    ensures
        p is Open ==> r->Failed_0.text() == "finalize 打开 "@ + part + " 失败: "@ + reason@,
        p is Sync ==> r->Failed_0.text() == "finalize fsync "@ + part + " 失败: "@ + reason@,
        p is RenameAgain ==> r->Failed_0.text() == "rename "@ + part + " -> "@ + dest
            + " 失败: "@ + p->RenameAgain_0@ + " / "@ + reason@,
{
}

} // verus!
