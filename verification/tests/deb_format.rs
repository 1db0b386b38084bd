use debkit::deb_format::{ArReader, DataEntry, DebError, DebFile, DebMetadata};
use std::io::Write;

fn make_tar_gz(files: &[(&str, &[u8], u32)]) -> Vec<u8> {
    let mut buf = Vec::new();
    {
        let enc = flate2::write::GzEncoder::new(&mut buf, flate2::Compression::default());
        let mut builder = tar::Builder::new(enc);
        for (path, content, mode) in files {
            let mut header = tar::Header::new_gnu();
            header.set_size(content.len() as u64);
            header.set_mode(*mode);
            header.set_cksum();
            builder.append_data(&mut header, path, *content).unwrap();
        }
        builder.into_inner().unwrap().finish().unwrap();
    }
    buf
}

fn write_field(dst: &mut [u8], val: &[u8]) {
    let mut v = vec![b' '; dst.len()];
    let start = dst.len() - val.len();
    v[start..].copy_from_slice(val);
    dst.copy_from_slice(&v);
}

fn ar_header(name: &str, size: u64) -> [u8; 60] {
    let mut h = [0u8; 60];
    let mut nf = String::new();
    nf.push_str(name);
    nf.push('/');
    while nf.len() < 16 {
        nf.push(' ');
    }
    h[0..16].copy_from_slice(nf.as_bytes());
    write_field(&mut h[16..28], b"0");
    write_field(&mut h[28..34], b"0");
    write_field(&mut h[34..40], b"0");
    h[40..48].copy_from_slice(b"00000644");
    let s = format!("{:<10}", size);
    h[48..58].copy_from_slice(s.as_bytes());
    h[58..60].copy_from_slice(b"`\n");
    h
}

fn ar_member(name: &str, body: &[u8]) -> Vec<u8> {
    let mut m = Vec::new();
    m.extend_from_slice(&ar_header(name, body.len() as u64));
    m.extend_from_slice(body);
    if body.len() % 2 != 0 {
        m.push(b'\n');
    }
    m
}

fn synthetic_deb() -> Vec<u8> {
    let control_content = b"Package: foo\nVersion: 1.0-1\nArchitecture: amd64\nMaintainer: TPT <t@e.com>\nDescription: test package\n";
    let control_tar = make_tar_gz(&[("control", control_content, 0o644)]);
    let data_tar = make_tar_gz(&[
        ("usr/bin/foo", b"#!/bin/sh\necho hi\n", 0o755),
        ("usr/share/doc/foo/README", b"hello\n", 0o644),
    ]);
    let mut out = Vec::new();
    out.extend_from_slice(b"!<arch>\n");
    out.extend_from_slice(&ar_member("debian-binary", b"2.0\n"));
    out.extend_from_slice(&ar_member("control.tar.gz", &control_tar));
    out.extend_from_slice(&ar_member("data.tar.gz", &data_tar));
    out
}

#[test]
fn metadata_case_insensitive_get() {
    let fields = vec![("Package".to_string(), "curl".to_string())];
    let meta = DebMetadata { fields };
    assert_eq!(meta.get("package"), Some("curl"));
    assert_eq!(meta.package_name(), Some("curl"));
}

#[test]
fn parse_bad_magic_errors() {
    let result = DebFile::parse(b"NOT_AN_AR");
    assert!(matches!(result, Err(DebError::InvalidFormat(_))));
}

#[test]
fn data_entry_construction() {
    let e = DataEntry { path: "usr/bin/curl".to_string(), size: 9999, mode: 0o755 };
    assert_eq!(e.size, 9999);
}

#[test]
fn round_trip_open_and_parse() {
    let bytes = synthetic_deb();
    let deb = DebFile::parse(&bytes).unwrap();
    assert_eq!(deb.metadata().package_name(), Some("foo"));
    assert_eq!(deb.metadata().version(), Some("1.0-1"));
    assert_eq!(deb.metadata().architecture(), Some("amd64"));
    let names: Vec<String> = deb.entries().iter().map(|e| e.path.clone()).collect();
    assert!(names.contains(&"usr/bin/foo".to_string()));
    assert!(names.contains(&"usr/share/doc/foo/README".to_string()));
}

#[test]
fn ar_reader_streams_members() {
    let bytes = synthetic_deb();
    let mut reader = ArReader::new(&bytes[..]).unwrap();
    let mut seen = Vec::new();
    while let Some(entry) = reader.next_entry().unwrap() {
        let name = entry.name().to_string();
        let size = entry.size();
        let body = entry.data().to_vec();
        assert_eq!(body.len() as u64, size);
        seen.push(name);
    }
    assert_eq!(
        seen,
        vec!["debian-binary".to_string(), "control.tar.gz".to_string(), "data.tar.gz".to_string()]
    );
}

// ── Further cases ────────────────────────────────────────────────────────────

#[test]
fn data_contents_reads_regular_files() {
    let deb = DebFile::parse(&synthetic_deb()).unwrap();
    let contents = deb.data_contents().unwrap();
    let readme = contents.iter().find(|(p, _)| p == "usr/share/doc/foo/README").unwrap();
    assert_eq!(readme.1, b"hello\n".to_vec());
    assert_eq!(contents.len(), 2);
    let modes: Vec<u32> = deb.entries().iter().map(|e| e.mode).collect();
    assert_eq!(modes, vec![0o755, 0o644]);
}

#[test]
fn empty_input_and_wrong_version_are_format_errors() {
    assert!(matches!(DebFile::parse(b""), Err(DebError::InvalidFormat(ref m)) if m == "empty archive (no ar magic)"));
    let mut bad = Vec::new();
    bad.extend_from_slice(b"!<arch>\n");
    bad.extend_from_slice(&ar_member("debian-binary", b"3.0\n"));
    let r = DebFile::parse(&bad);
    assert!(matches!(r, Err(DebError::InvalidFormat(ref m)) if m == "unsupported deb format version: \"3.0\""));
}

#[test]
fn missing_control_member_is_error() {
    let mut only = Vec::new();
    only.extend_from_slice(b"!<arch>\n");
    only.extend_from_slice(&ar_member("debian-binary", b"2.0\n"));
    let r = DebFile::parse(&only);
    assert!(matches!(r, Err(DebError::InvalidFormat(ref m)) if m == "missing control.tar member"));
}

#[test]
fn unsupported_member_compression() {
    let mut d = Vec::new();
    d.extend_from_slice(b"!<arch>\n");
    d.extend_from_slice(&ar_member("control.tar.bz2", b"xx"));
    assert!(matches!(DebFile::parse(&d), Err(DebError::UnsupportedCompression(ref e)) if e == ".bz2"));
}

#[test]
fn bad_header_terminator_and_size() {
    let mut d = b"!<arch>\n".to_vec();
    let mut h = ar_header("x", 2);
    h[59] = b'X';
    d.extend_from_slice(&h);
    assert!(matches!(DebFile::parse(&d), Err(DebError::InvalidFormat(ref m)) if m == "bad ar header terminator"));
    let mut d = b"!<arch>\n".to_vec();
    let mut h = ar_header("x", 2);
    h[48..58].copy_from_slice(b"12ab      ");
    d.extend_from_slice(&h);
    let mut r = ArReader::new(&d).unwrap();
    assert!(matches!(r.next_entry(), Err(DebError::InvalidFormat(ref m)) if m == "invalid ar member size \"12ab\""));
}

#[test]
fn uncompressed_members_are_read() {
    let mut tar_bytes = Vec::new();
    {
        let mut b = tar::Builder::new(&mut tar_bytes);
        let content = b"Package: bar\nVersion: 2\n";
        let mut header = tar::Header::new_gnu();
        header.set_size(content.len() as u64);
        header.set_mode(0o644);
        header.set_cksum();
        b.append_data(&mut header, "./control", &content[..]).unwrap();
        b.finish().unwrap();
    }
    let mut d = b"!<arch>\n".to_vec();
    d.extend_from_slice(&ar_member("debian-binary", b"2.0\n"));
    d.extend_from_slice(&ar_member("control.tar", &tar_bytes));
    let deb = DebFile::parse(&d).unwrap();
    assert_eq!(deb.metadata().package_name(), Some("bar"));
    assert!(deb.entries().is_empty());
    assert!(deb.data_member().is_none());
    assert_eq!(deb.control_member().unwrap().0, "");
    let mut w = Vec::new();
    w.write_all(b"x").unwrap();
}
