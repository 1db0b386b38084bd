use debkit::deb_diff::{DebDiff, DebDiffError};
use debkit::deb_format::DebError;

fn tar_gz(files: &[(&str, &[u8])]) -> Vec<u8> {
    let mut buf = Vec::new();
    {
        let enc = flate2::write::GzEncoder::new(&mut buf, flate2::Compression::default());
        let mut builder = tar::Builder::new(enc);
        for (path, content) in files {
            let mut header = tar::Header::new_gnu();
            header.set_size(content.len() as u64);
            header.set_mode(0o644);
            header.set_cksum();
            builder.append_data(&mut header, path, *content).unwrap();
        }
        builder.into_inner().unwrap().finish().unwrap();
    }
    buf
}

fn write_ar_member(out: &mut Vec<u8>, name: &str, body: &[u8]) {
    let mut padded_name = name.to_string();
    while padded_name.len() < 16 {
        padded_name.push(' ');
    }
    let size = format!("{:<10}", body.len());
    let header = format!("{}{}0     0     100644  {}`\n", padded_name, "0           ", size);
    assert_eq!(header.len(), 60);
    out.extend_from_slice(header.as_bytes());
    out.extend_from_slice(body);
    if body.len() % 2 != 0 {
        out.push(b'\n');
    }
}

/// A `.deb` in memory from a control string and data files (path, contents).
fn build_deb(control: &str, files: &[(&str, &[u8])]) -> Vec<u8> {
    let mut buf: Vec<u8> = b"!<arch>\n".to_vec();
    write_ar_member(&mut buf, "debian-binary", b"2.0\n");
    write_ar_member(&mut buf, "control.tar.gz", &tar_gz(&[("control", control.as_bytes())]));
    write_ar_member(&mut buf, "data.tar.gz", &tar_gz(files));
    buf
}

const CONTROL_A: &str = "Package: foo\nVersion: 1.0-1\nArchitecture: amd64\nDescription: test\n";
const CONTROL_B: &str = "Package: foo\nVersion: 1.0-2\nArchitecture: amd64\nDescription: test\n";

#[test]
fn identical_debs_produce_empty_diff() {
    let a = build_deb(CONTROL_A, &[("usr/bin/foo", b"hello")]);
    let b = build_deb(CONTROL_A, &[("usr/bin/foo", b"hello")]);
    let report = DebDiff::compare(&a, &b).unwrap();
    assert!(report.is_empty());
    assert_eq!(report.change_count(), 0);
}

#[test]
fn version_change_detected_in_metadata() {
    let a = build_deb(CONTROL_A, &[("usr/bin/foo", b"hello")]);
    let b = build_deb(CONTROL_B, &[("usr/bin/foo", b"hello")]);
    let report = DebDiff::compare(&a, &b).unwrap();
    assert_eq!(report.metadata.len(), 1);
    assert_eq!(report.metadata[0].field, "Version");
    assert_eq!(report.metadata[0].old.as_deref(), Some("1.0-1"));
    assert_eq!(report.metadata[0].new.as_deref(), Some("1.0-2"));
}

#[test]
fn added_removed_and_modified_files() {
    let a = build_deb(CONTROL_A, &[("usr/bin/foo", b"hello"), ("usr/bin/old", b"gone")]);
    let b = build_deb(CONTROL_A, &[("usr/bin/foo", b"hello world"), ("usr/bin/new", b"fresh")]);
    let report = DebDiff::compare(&a, &b).unwrap();
    assert_eq!(report.files_added, vec!["usr/bin/new".to_string()]);
    assert_eq!(report.files_removed, vec!["usr/bin/old".to_string()]);
    assert_eq!(report.files_modified.len(), 1);
    assert_eq!(report.files_modified[0].path, "usr/bin/foo");
}

#[test]
fn invalid_input_errors() {
    let bad = b"not a deb";
    let good = build_deb(CONTROL_A, &[]);
    assert!(DebDiff::compare(bad, &good).is_err());
}

// ── Further cases ────────────────────────────────────────────────────────────

#[test]
fn modified_file_carries_both_digests() {
    let a = build_deb(CONTROL_A, &[("etc/conf", b"a")]);
    let b = build_deb(CONTROL_A, &[("etc/conf", b"b")]);
    let report = DebDiff::compare(&a, &b).unwrap();
    assert_eq!(report.files_modified.len(), 1);
    let m = &report.files_modified[0];
    assert_eq!(
        m.old_sha256.as_deref(),
        Some("ca978112ca1bbdcafac231b39a23dc4da786eff8147c4e72b9807785afee48bb")
    );
    assert_eq!(
        m.new_sha256.as_deref(),
        Some("3e23e8160039594a33894f6564e1b1348bbd7a0088d42c4acb73eeaed59c009d")
    );
    assert_eq!(report.change_count(), 1);
}

#[test]
fn fields_listed_in_name_order() {
    let a = build_deb("Package: foo\nVersion: 1\nZeta: 1\nAlpha: x\n", &[]);
    let b = build_deb("Package: foo\nVersion: 2\nBeta: y\nZeta: 2\n", &[]);
    let report = DebDiff::compare(&a, &b).unwrap();
    let fields: Vec<&str> = report.metadata.iter().map(|m| m.field.as_str()).collect();
    assert_eq!(fields, vec!["Alpha", "Beta", "Version", "Zeta"]);
    assert_eq!(report.metadata[0].new, None);
    assert_eq!(report.metadata[1].old, None);
}

#[test]
fn paths_sorted_by_component() {
    let a = build_deb(CONTROL_A, &[]);
    let b = build_deb(CONTROL_A, &[("usr/bin-x", b"1"), ("usr/bin/foo", b"2"), ("a", b"3")]);
    let report = DebDiff::compare(&a, &b).unwrap();
    assert_eq!(report.files_added, vec!["a".to_string(), "usr/bin/foo".to_string(), "usr/bin-x".to_string()]);
    assert!(report.files_removed.is_empty());
}

#[test]
fn second_input_error_reported() {
    let good = build_deb(CONTROL_A, &[]);
    match DebDiff::compare(&good, b"!<arch>\n") {
        Err(DebDiffError::Deb(DebError::InvalidFormat(m))) => assert_eq!(m, "missing control.tar member"),
        Err(e) => panic!("unexpected error: {}", e.to_string()),
        Ok(_) => panic!("expected an error"),
    }
}

#[test]
fn error_messages() {
    let e = DebDiffError::Checksum("bad".to_string());
    assert_eq!(e.to_string(), "checksum error: bad");
    let e = DebDiffError::Deb(DebError::Io("eof".to_string()));
    assert_eq!(e.to_string(), "deb parse error: I/O error: eof");
}
