//! Fetch configuration and the decoding of downloaded indices by their URL's
//! extension (`.gz`, `.xz`, `.zst`).

use vstd::prelude::*;
use crate::text::{chars_of, own, index_of, ends_with, matches_at, matches_at_exec, find_char,
    slice_of, push_str};
use crate::numeric::{dec, u64_to_dec};

verus! {

/// Timeouts and retries of the HTTP transport.
#[derive(Debug, Clone)]
pub struct TransportConfig {
    /// Timeout for establishing a TCP connection, in seconds.
    pub connect_timeout_secs: u64,
    /// Timeout for a whole request, in seconds.
    pub request_timeout_secs: u64,
    /// Retries on transient errors.
    pub max_retries: u32,
}

impl Default for TransportConfig {
    /// 30 s to connect, 60 s per request, 3 retries.
    fn default() -> (r: TransportConfig)
        ensures
            r.connect_timeout_secs == 30,
            r.request_timeout_secs == 60,
            r.max_retries == 3,
    {
        TransportConfig { connect_timeout_secs: 30, request_timeout_secs: 60, max_retries: 3 }
    }
}

/// Errors of fetching and decoding that do not come from the network.
#[derive(Debug)]
pub enum TransportError {
    /// All mirrors were tried and all failed.
    AllMirrorsFailed,
    /// The URL names a compression format that is not supported.
    UnsupportedCompression(String),
    /// Decompression failed.
    DecompressError(String),
    /// A PDiff update failed.
    Pdiff(String),
    /// The server answered with a status other than success.
    Http(u16),
}

/// Name for what decoding `raw` as gzip gives (`None` when it fails).
pub uninterp spec fn gz_decoded(raw: Seq<u8>) -> Option<Seq<u8>>;

/// Name for what decoding `raw` as xz gives (`None` when it fails).
pub uninterp spec fn xz_decoded(raw: Seq<u8>) -> Option<Seq<u8>>;

/// Name for what decoding `raw` as zstd gives (`None` when it fails).
pub uninterp spec fn zstd_decoded(raw: Seq<u8>) -> Option<Seq<u8>>;

/// Decodes gzip data.
///
/// Wraps `flate2::read::GzDecoder` read to its end. The outcome is named by
/// `gz_decoded`, a function of the bytes alone; on failure the error text of
/// the I/O error is returned, of which nothing is stated.
#[verifier::external_body]
pub fn gunzip(raw: &[u8]) -> (r: Result<Vec<u8>, String>)
    ensures
        match r {
            Ok(v) => gz_decoded(raw@) == Some(v@),
            Err(_) => gz_decoded(raw@) is None,
        },
{
    let mut d = flate2::read::GzDecoder::new(raw);
    let mut out = Vec::new();
    match std::io::Read::read_to_end(&mut d, &mut out) {
        Ok(_) => Ok(out),
        Err(e) => Err(e.to_string()),
    }
}

/// Decodes xz data.
///
/// Wraps `xz2::read::XzDecoder` read to its end; the outcome is named by
/// `xz_decoded`. On failure the I/O error's text is returned, of which
/// nothing is stated.
#[verifier::external_body]
pub fn unxz(raw: &[u8]) -> (r: Result<Vec<u8>, String>)
    ensures
        match r {
            Ok(v) => xz_decoded(raw@) == Some(v@),
            Err(_) => xz_decoded(raw@) is None,
        },
{
    let mut d = xz2::read::XzDecoder::new(raw);
    let mut out = Vec::new();
    match std::io::Read::read_to_end(&mut d, &mut out) {
        Ok(_) => Ok(out),
        Err(e) => Err(e.to_string()),
    }
}

/// Decodes zstd data.
///
/// Wraps `zstd::Decoder` (creation, then reading to the end); the outcome is
/// named by `zstd_decoded`. On failure the I/O error's text is returned, of
/// which nothing is stated.
#[verifier::external_body]
pub fn unzstd(raw: &[u8]) -> (r: Result<Vec<u8>, String>)
    ensures
        match r {
            Ok(v) => zstd_decoded(raw@) == Some(v@),
            Err(_) => zstd_decoded(raw@) is None,
        },
{
    let mut d = match zstd::Decoder::new(raw) {
        Ok(d) => d,
        Err(e) => return Err(e.to_string()),
    };
    let mut out = Vec::new();
    match std::io::Read::read_to_end(&mut d, &mut out) {
        Ok(_) => Ok(out),
        Err(e) => Err(e.to_string()),
    }
}

/// The compression a URL names by its extension (query string ignored):
/// 1 gzip, 2 xz, 3 zstd, 0 none.
pub open spec fn url_compression(url: Seq<char>) -> int {
    let path = url.take(index_of(url, '?') as int);
    if ends_with(path, ".gz"@) {
        1
    } else if ends_with(path, ".xz"@) {
        2
    } else if ends_with(path, ".zst"@) {
        3
    } else {
        0
    }
}

/// What decoding `raw` fetched from `url` gives: `None` when it fails.
pub open spec fn decoded_by_url(url: Seq<char>, raw: Seq<u8>) -> Option<Seq<u8>> {
    let k = url_compression(url);
    if k == 1 {
        gz_decoded(raw)
    } else if k == 2 {
        xz_decoded(raw)
    } else if k == 3 {
        zstd_decoded(raw)
    } else {
        Some(raw)
    }
}

fn ends_with_exec(v: &Vec<char>, p: &str) -> (r: bool)
    ensures
        r == ends_with(v@, p@),
{
    let pc = chars_of(p);
    if pc.len() > v.len() {
        return false;
    }
    let r = matches_at_exec(v, &pc, v.len() - pc.len());
    proof {
        assert(v@.subrange((v@.len() - pc@.len()) as int, v@.len() as int) =~= v@.skip(
            v@.len() - pc@.len(),
        ));
    }
    r
}

/// Decompresses `raw` as the extension of `url` says; other URLs give
/// `raw` back.
pub fn decompress_by_url(url: &str, raw: Vec<u8>) -> (r: Result<Vec<u8>, TransportError>)
    ensures
        match decoded_by_url(url@, raw@) {
            Some(v) => r matches Ok(x) && x@ == v,
            None => r matches Err(TransportError::DecompressError(_)),
        },
{
    let u = chars_of(url);
    let q = find_char(&u, 0, u.len(), '?');
    let path = slice_of(&u, 0, q);
    proof {
        assert(u@.subrange(0, u@.len() as int) =~= u@);
        assert(path@ =~= u@.take(index_of(u@, '?') as int));
    }
    let res = if ends_with_exec(&path, ".gz") {
        gunzip(raw.as_slice())
    } else if ends_with_exec(&path, ".xz") {
        unxz(raw.as_slice())
    } else if ends_with_exec(&path, ".zst") {
        unzstd(raw.as_slice())
    } else {
        return Ok(raw);
    };
    match res {
        Ok(v) => Ok(v),
        Err(m) => Err(TransportError::DecompressError(m)),
    }
}

// ── Resumable downloads ───────────────────────────────────────────────────────

/// The `Range` header value asking for the bytes after the `existing_len`
/// already on disk; none when nothing is on disk yet.
pub fn range_request(existing_len: u64) -> (r: Option<String>)
    ensures
        r is None <==> existing_len == 0,
        r matches Some(h) ==> h@ == "bytes="@ + dec(existing_len as nat) + "-"@,
{
    if existing_len == 0 {
        None
    } else {
        let mut h = own("bytes=");
        let n = u64_to_dec(existing_len);
        push_str(&mut h, n.as_str());
        push_str(&mut h, "-");
        Some(h)
    }
}

/// How to write the answer to a (possibly ranged) download request: whether
/// to append to the `existing_len` bytes on disk (a `206 Partial Content`
/// answer to a ranged request) or to write the file anew (`200 OK`), and the
/// expected total size when the server states its length. Any other status
/// is an error.
pub fn resume_mode(status: u16, existing_len: u64, server_total: Option<u64>) -> (r: Result<(bool, Option<u64>), TransportError>)
    ensures
        (status != 200 && status != 206) <==> (r matches Err(TransportError::Http(s)) && s == status),
        r matches Ok((append, total)) ==> {
            &&& append == (status == 206 && existing_len > 0)
            &&& total == match server_total {
                None => None::<u64>,
                Some(t) => Some(
                    if append {
                        if t + existing_len > u64::MAX {
                            u64::MAX
                        } else {
                            (t + existing_len) as u64
                        }
                    } else {
                        t
                    },
                ),
            }
        },
{
    if status != 200 && status != 206 {
        return Err(TransportError::Http(status));
    }
    let append = status == 206 && existing_len > 0;
    let total = match server_total {
        None => None,
        Some(t) => Some(
            if append {
                t.saturating_add(existing_len)
            } else {
                t
            },
        ),
    };
    Ok((append, total))
}

// ── Retries and mirror failover ───────────────────────────────────────────────

/// What to do after a fetch attempt.
#[derive(Debug, Clone, Copy, PartialEq, Eq)]
pub enum FetchAction {
    /// The attempt succeeded: use its answer.
    Done,
    /// Try the same mirror again; the number of the next attempt.
    Retry(u32),
    /// Move on to the mirror of this index, from its first attempt.
    NextMirror(usize),
    /// Every attempt at every mirror failed.
    GiveUp,
}

/// The step after attempt `attempt` (counted from 0) at mirror `mirror` of
/// `n_mirrors` failed or succeeded (`last_ok`): each mirror gets the first
/// attempt and up to `max_retries` retries, mirrors are tried in order, and
/// the fetch gives up when the last mirror has used up its retries.
pub fn next_fetch_step(attempt: u32, max_retries: u32, mirror: usize, n_mirrors: usize, last_ok: bool) -> (r: FetchAction)
    ensures
        r == if last_ok {
            FetchAction::Done
        } else if attempt < max_retries {
            FetchAction::Retry((attempt + 1) as u32)
        } else if mirror + 1 < n_mirrors {
            FetchAction::NextMirror((mirror + 1) as usize)
        } else {
            FetchAction::GiveUp
        },
{
    if last_ok {
        FetchAction::Done
    } else if attempt < max_retries {
        FetchAction::Retry(attempt + 1)
    } else if mirror < n_mirrors && mirror + 1 < n_mirrors {
        FetchAction::NextMirror(mirror + 1)
    } else {
        FetchAction::GiveUp
    }
}

} // verus!
