use debkit::pdiff::{
    apply_patch_step, encode_rdiff_delta, packages_diff_index_url, patch_base_url, pdiff_finish, pdiff_start,
    resolve_chain, sha256_hex, sources_diff_index_url, PdiffBasis, PdiffIndex, PdiffStart, PdiffUpdate, RdiffOp,
};
use debkit::rdiff::{apply_rdiff_delta, PdiffError};
use debkit::release::ReleaseIndex;
use debkit::transport::{decompress_by_url, next_fetch_step, range_request, resume_mode, FetchAction, TransportConfig, TransportError};
use std::io::Write;
use flate2::write::GzEncoder;
use flate2::Compression;
use xz2::write::XzEncoder;

#[test]
fn default_config_values() {
    let cfg = TransportConfig::default();
    assert_eq!(cfg.connect_timeout_secs, 30);
    assert_eq!(cfg.request_timeout_secs, 60);
    assert_eq!(cfg.max_retries, 3);
}

#[test]
fn decompress_gz_roundtrip() {

    let original = b"hello from gzip compression test";
    let mut encoder = GzEncoder::new(Vec::new(), Compression::default());
    encoder.write_all(original).unwrap();
    let compressed = encoder.finish().unwrap();

    let decompressed = decompress_by_url("http://example.com/Packages.gz", compressed).unwrap();
    assert_eq!(decompressed, original);
}

#[test]
fn decompress_xz_roundtrip() {

    let original = b"hello from xz compression test";
    let mut encoder = XzEncoder::new(Vec::new(), 6);
    encoder.write_all(original).unwrap();
    let compressed = encoder.finish().unwrap();

    let decompressed = decompress_by_url("http://example.com/Packages.xz", compressed).unwrap();
    assert_eq!(decompressed, original);
}

#[test]
fn decompress_unknown_extension_passthrough() {
    let data = b"raw data".to_vec();
    let result = decompress_by_url("http://example.com/Packages", data.clone()).unwrap();
    assert_eq!(result, data);
}

#[test]
fn decompress_zstd_roundtrip() {
    let original = b"hello from zstd compression test";
    let compressed = zstd::encode_all(&original[..], 3).unwrap();
    let decompressed = decompress_by_url("http://example.com/Packages.zst", compressed).unwrap();
    assert_eq!(decompressed, original);
}

#[test]
fn decompress_corrupt_gzip_is_error() {
    let r = decompress_by_url("http://example.com/Packages.gz", b"not gzip at all".to_vec());
    assert!(matches!(r, Err(TransportError::DecompressError(_))));
}

#[test]
fn decompress_ignores_query_and_passes_unknown_extensions() {
    let r = decompress_by_url("http://example.com/Packages.bz2?x=1.gz", b"x".to_vec()).unwrap();
    assert_eq!(r, b"x".to_vec());
}

// ── PDiff index and chains ───────────────────────────────────────────────────

#[test]
fn parse_index_basic() {
    let text = "\
deadbeef  cafe0000  1234  Packages.diff/deadbeef_cafe0000.gz
cafe0000   feedface  99    Packages.diff/cafe0000_feedface.gz
";
    let idx = PdiffIndex::parse(text).unwrap();
    assert_eq!(idx.entries.len(), 2);
    assert_eq!(idx.entries[0].old_sha256, "deadbeef");
    assert_eq!(idx.entries[0].size, 1234);
    assert_eq!(idx.entries[0].patch_file, "Packages.diff/deadbeef_cafe0000.gz");
}

#[test]
fn parse_index_rejects_bad_line() {
    assert!(PdiffIndex::parse("only three fields here\n").is_err());
}

#[test]
fn resolve_chain_single_hop() {
    let idx = PdiffIndex::parse("aaaa bbbb 1 p/a_b.gz\nbbbb cccc 1 p/b_c.gz\n").unwrap();
    let chain = resolve_chain(&idx, "aaaa", "cccc").unwrap();
    assert_eq!(chain.len(), 2);
    assert_eq!(chain[0].old_sha256, "aaaa");
    assert_eq!(chain[1].new_sha256, "cccc");
}

#[test]
fn resolve_chain_nonexistent() {
    let idx = PdiffIndex::parse("aaaa bbbb 1 p/a_b.gz\n").unwrap();
    assert!(resolve_chain(&idx, "aaaa", "zzzz").is_none());
}

#[test]
fn resolve_chain_already_current() {
    let idx = PdiffIndex::parse("aaaa bbbb 1 p/a_b.gz\n").unwrap();
    assert_eq!(resolve_chain(&idx, "aaaa", "aaaa").unwrap().len(), 0);
}

#[test]
fn resolve_chain_prefers_fewest_hops() {
    let idx = PdiffIndex::parse("aaaa bbbb 1 p/1.gz\nbbbb cccc 1 p/2.gz\naaaa cccc 1 p/3.gz\n").unwrap();
    let chain = resolve_chain(&idx, "aaaa", "cccc").unwrap();
    assert_eq!(chain.len(), 1);
    assert_eq!(chain[0].patch_file, "p/3.gz");
}

#[test]
fn parse_index_rejects_bad_size() {
    assert!(PdiffIndex::parse("aaaa bbbb x1 p/a_b.gz\n").is_err());
}

// ── rdiff deltas ─────────────────────────────────────────────────────────────

#[test]
fn apply_literal_only() {
    let delta = encode_rdiff_delta(&[RdiffOp::Literal(b"hello world")]);
    let out = apply_rdiff_delta(b"ignored basis", &delta).unwrap();
    assert_eq!(out, b"hello world");
}

#[test]
fn apply_copy_only() {
    let basis = b"HelloWorld";
    let delta = encode_rdiff_delta(&[RdiffOp::Copy(0, 5)]);
    let out = apply_rdiff_delta(basis, &delta).unwrap();
    assert_eq!(out, b"Hello");
}

#[test]
fn apply_copy_and_literal() {
    let basis = b"The quick brown fox jumps over the lazy dog";
    let delta = encode_rdiff_delta(&[
        RdiffOp::Copy(0, 10),
        RdiffOp::Literal(b"RED "),
        RdiffOp::Copy(16, 27),
    ]);
    let out = apply_rdiff_delta(basis, &delta).unwrap();
    assert_eq!(out, b"The quick RED fox jumps over the lazy dog");
}

#[test]
fn apply_rejects_bad_magic() {
    assert!(matches!(
        apply_rdiff_delta(b"x", b"not a delta"),
        Err(PdiffError::BadMagic)
    ));
}

#[test]
fn encode_decode_round_trip() {
    let basis = b"abcdefghijklmnop";
    let delta = encode_rdiff_delta(&[RdiffOp::Copy(3, 5), RdiffOp::Literal(b"ZZ")]);
    let out = apply_rdiff_delta(basis, &delta).unwrap();
    assert_eq!(out, b"defghZZ");
}

#[test]
fn encoded_literal_bytes_are_exact() {
    let delta = encode_rdiff_delta(&[RdiffOp::Literal(b"ab")]);
    assert_eq!(delta, vec![0x72, 0x73, 0x02, 0x36, 0x41, 0x02, b'a', b'b', 0x00]);
}

#[test]
fn copy_outside_basis_is_corrupt() {
    let delta = encode_rdiff_delta(&[RdiffOp::Copy(8, 5)]);
    assert!(matches!(apply_rdiff_delta(b"short", &delta), Err(PdiffError::Corrupt(_))));
}

#[test]
fn truncated_delta_is_corrupt() {
    let delta = encode_rdiff_delta(&[RdiffOp::Literal(b"hello")]);
    assert!(apply_rdiff_delta(b"", &delta[..delta.len() - 3]).is_err());
}

// ── Hashes, URLs and patch steps ─────────────────────────────────────────────

#[test]
fn sha256_hex_of_empty_input() {
    assert_eq!(
        sha256_hex(b""),
        "e3b0c44298fc1c149afbf4c8996fb92427ae41e4649b934ca495991b7852b855"
    );
}

#[test]
fn diff_index_urls() {
    assert_eq!(
        packages_diff_index_url("http://deb.debian.org/debian/", "stable", "main", "amd64"),
        "http://deb.debian.org/debian/dists/stable/main/binary-amd64/Packages.diff/Index"
    );
    assert_eq!(
        sources_diff_index_url("http://deb.debian.org/debian", "stable", "main"),
        "http://deb.debian.org/debian/dists/stable/main/source/Sources.diff/Index"
    );
    assert_eq!(
        patch_base_url("http://x/dists/stable/main/binary-amd64/Packages.diff/Index"),
        "http://x/dists/stable/main/binary-amd64/"
    );
}

#[test]
fn patch_step_reconstructs_and_checks_hash() {
    let basis = b"the quick brown fox jumps over the lazy dog";
    let new = b"the quick RED fox jumps over the lazy dog";
    let delta = encode_rdiff_delta(&[
        RdiffOp::Copy(0, 10),
        RdiffOp::Literal(b"RED "),
        RdiffOp::Copy(16, 27),
    ]);
    let mut gz = GzEncoder::new(Vec::new(), Compression::default());
    gz.write_all(&delta).unwrap();
    let patch = gz.finish().unwrap();
    let out = apply_patch_step(basis, &patch, &sha256_hex(new)).unwrap();
    assert_eq!(out, new);
    let bad = apply_patch_step(basis, &patch, &sha256_hex(b"something else"));
    assert!(matches!(bad, Err(TransportError::Pdiff(_))));
}

// ── Release files ────────────────────────────────────────────────────────────

const RELEASE: &str = "\
Origin: Debian
Label: Debian
Suite: stable
Components: main
Architectures: amd64

SHA256:
 aaaa1111 1234 main/binary-amd64/Packages
 bbbb2222 5678 main/binary-amd64/Packages.diff/Index
 cccc3333 99   main/source/Sources

SHA512:
 dddd4444 9999 main/binary-amd64/Packages
";

#[test]
fn parses_sha256_section() {
    let idx = ReleaseIndex::parse(RELEASE).unwrap();
    let f = idx.files.get("main/binary-amd64/Packages").unwrap();
    assert_eq!(f.sha256, "aaaa1111");
    assert_eq!(f.size, 1234);
    assert!(!idx.files.contains_key("main/binary-amd64/Packages.gz"));
}

#[test]
fn looks_up_packages_and_diff() {
    let idx = ReleaseIndex::parse(RELEASE).unwrap();
    assert_eq!(idx.packages_sha256("main", "amd64"), Some("aaaa1111"));
    assert_eq!(
        idx.packages_diff_index_path("main", "amd64"),
        Some("main/binary-amd64/Packages.diff/Index")
    );
    assert_eq!(idx.packages_sha256("nope", "amd64"), None);
}

#[test]
fn parses_clearsigned_inrelease() {
    let inrelease = "\
-----BEGIN PGP SIGNED MESSAGE-----
Hash: SHA256

SHA256:
 eeee5555 42 main/binary-amd64/Packages

-----BEGIN PGP SIGNATURE-----
fakebase64
-----END PGP SIGNATURE-----
";
    let idx = ReleaseIndex::parse(inrelease).unwrap();
    assert_eq!(idx.packages_sha256("main", "amd64"), Some("eeee5555"));
}

#[test]
fn release_files_len_counts_sha256_entries() {
    let idx = ReleaseIndex::parse(RELEASE).unwrap();
    assert_eq!(idx.files.len(), 3);
}

#[test]
fn plain_release_without_blank_line_is_parsed() {
    let text = "Origin: Debian\nSuite: stable\nSHA256:\n aaaa1111 1234 main/binary-amd64/Packages\n";
    let idx = ReleaseIndex::parse(text).unwrap();
    assert_eq!(idx.packages_sha256("main", "amd64"), Some("aaaa1111"));
}

#[test]
fn range_header_only_for_partial_files() {
    assert_eq!(range_request(0), None);
    assert_eq!(range_request(11), Some("bytes=11-".to_string()));
}

#[test]
fn resume_mode_appends_only_on_partial_content() {
    assert!(matches!(resume_mode(206, 11, Some(20)), Ok((true, Some(31)))));
    assert!(matches!(resume_mode(200, 11, Some(31)), Ok((false, Some(31)))));
    assert!(matches!(resume_mode(206, 0, None), Ok((false, None))));
    assert!(matches!(resume_mode(206, 5, Some(u64::MAX)), Ok((true, Some(u64::MAX)))));
    assert!(matches!(resume_mode(404, 11, Some(20)), Err(TransportError::Http(404))));
}

#[test]
fn fetch_steps_retry_then_fail_over() {
    assert_eq!(next_fetch_step(0, 3, 0, 2, true), FetchAction::Done);
    assert_eq!(next_fetch_step(0, 3, 0, 2, false), FetchAction::Retry(1));
    assert_eq!(next_fetch_step(3, 3, 0, 2, false), FetchAction::NextMirror(1));
    assert_eq!(next_fetch_step(3, 3, 1, 2, false), FetchAction::GiveUp);
}

#[test]
fn pdiff_start_without_cache_is_no_delta() {
    assert!(matches!(pdiff_start(None, "abc"), PdiffStart::NoDelta));
}

#[test]
fn pdiff_start_at_target_keeps_the_cached_bytes() {
    let basis = PdiffBasis { sha256: "ABCD", bytes: b"index" };
    match pdiff_start(Some(&basis), "abcd") {
        PdiffStart::Current(bytes) => assert_eq!(bytes, b"index".to_vec()),
        _ => panic!("expected the cached index"),
    }
}

#[test]
fn pdiff_start_elsewhere_needs_a_chain() {
    let basis = PdiffBasis { sha256: "AB12", bytes: b"old" };
    match pdiff_start(Some(&basis), "ffff") {
        PdiffStart::Chain(hash, bytes) => {
            assert_eq!(hash, "ab12");
            assert_eq!(bytes, b"old".to_vec());
        }
        _ => panic!("expected a chain"),
    }
}

#[test]
fn pdiff_finish_checks_the_final_hash() {
    let good = sha256_hex(b"new");
    match pdiff_finish(b"new".to_vec(), &good.to_uppercase()) {
        Ok(PdiffUpdate::Reconstructed(bytes)) => assert_eq!(bytes, b"new".to_vec()),
        _ => panic!("expected the reconstructed index"),
    }
    match pdiff_finish(b"new".to_vec(), "00") {
        Err(TransportError::Pdiff(m)) => assert_eq!(m, format!("final hash {good} != target 00")),
        _ => panic!("expected a hash mismatch"),
    }
}

#[test]
fn unknown_delta_command_is_unimplemented() {
    let delta = [0x72u8, 0x73, 0x02, 0x36, 0x99];
    assert!(matches!(apply_rdiff_delta(b"basis", &delta), Err(PdiffError::Unimplemented(0x99))));
}

#[test]
fn short_or_wrong_magic_is_bad_magic() {
    assert!(matches!(apply_rdiff_delta(b"", &[0x72, 0x73, 0x02]), Err(PdiffError::BadMagic)));
    assert!(matches!(apply_rdiff_delta(b"", &[0x72, 0x73, 0x02, 0x37, 0x00]), Err(PdiffError::BadMagic)));
    assert!(apply_rdiff_delta(b"", &[0x72, 0x73, 0x02, 0x36, 0x00]).is_ok());
}
