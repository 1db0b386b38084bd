use debkit::control_file::{
    parse_borrowed_paragraph, parse_control, parse_control_borrowed, parse_control_strict,
    parse_control_strict_borrowed, BinaryPackage, ControlError, ControlFile, ControlParagraph,
    PackagesIndex, SourcePackage, SourcesIndex,
};

const STANZA: &str = "\
Package: libfoo
Version: 1.2.3-4
Architecture: amd64
Description: A foo library
Depends: libc6 (>= 2.17), libbar
Conflicts: libfoo-old
Provides: libfoo-abi1
";

#[test]
fn parse_basic_stanza() {
    let pkg = BinaryPackage::parse_stanza(STANZA).unwrap();
    assert_eq!(pkg.name, "libfoo");
    assert_eq!(pkg.version_str, "1.2.3-4");
    assert_eq!(pkg.architecture, "amd64");
    assert!(pkg.depends.is_some());
    assert!(pkg.conflicts.is_some());
    assert!(pkg.provides.is_some());
}

#[test]
fn missing_package_field_errors() {
    let result = BinaryPackage::parse_stanza("Version: 1.0\n");
    assert!(matches!(result, Err(ControlError::MissingField(_))));
}

#[test]
fn parse_control_multi_stanza() {
    let input = "Package: a\nVersion: 1.0\n\nPackage: b\nVersion: 2.0\n";
    let stanzas = parse_control(input);
    assert_eq!(stanzas.len(), 2);
    assert_eq!(stanzas[0].get("Package"), Some("a"));
    assert_eq!(stanzas[1].get("Package"), Some("b"));
}

#[test]
fn control_paragraph_case_insensitive_get() {
    let mut p = ControlParagraph::new();
    p.set("Package", "hello");
    assert_eq!(p.get("package"), Some("hello"));
    assert_eq!(p.get("PACKAGE"), Some("hello"));
}

#[test]
fn folded_description_joined_with_newlines() {
    let stanza = "\
Package: foo
Version: 1.0
Description: short synopsis
 this is a continuation line
  and another with leading spaces preserved
";
    let pkg = BinaryPackage::parse_stanza(stanza).unwrap();
    assert_eq!(pkg.description, "short synopsis");
    let desc = parse_control(stanza)
        .into_iter()
        .next()
        .unwrap()
        .get("Description")
        .unwrap()
        .to_string();
    assert!(desc.starts_with("short synopsis"));
    assert!(desc.contains("this is a continuation line"));
    assert!(desc.contains(" and another with leading spaces preserved"));
}

#[test]
fn source_package_parse() {
    let stanza = "\
Package: glibc
Version: 2.38-1
Maintainer: Nobody <nobody@example.com>
Architecture: all amd64
Build-Depends: libc6-dev (>= 2.0), gcc
Directory: pool/main/g/glibc
";
    let src = SourcePackage::parse_stanza(stanza).unwrap();
    assert_eq!(src.name, "glibc");
    assert_eq!(src.version_str, "2.38-1");
    assert_eq!(src.architecture, vec!["all".to_string(), "amd64".to_string()]);
    assert!(src.build_depends.is_some());
    assert_eq!(src.directory.as_deref(), Some("pool/main/g/glibc"));
}

#[test]
fn packages_index_streams_entries() {
    let index = "\
Package: a
Version: 1.0

Package: b
Version: 2.0

Package: c
Version: 3.0
";
    let idx = PackagesIndex::new(index);
    assert_eq!(idx.len(), 3);
    let names: Vec<_> = idx.iter().into_iter().map(|p| p.name).collect();
    assert_eq!(names, vec!["a".to_string(), "b".to_string(), "c".to_string()]);
}

#[test]
fn strict_parse_rejects_duplicate_fields() {
    let input = "Package: a\nVersion: 1.0\nPackage: b\n";
    let paras = parse_control_strict(input);
    assert_eq!(paras.len(), 1);
    assert!(matches!(paras[0], Err(ControlError::DuplicateField(_))));
}

#[test]
fn strict_parse_accepts_unique_fields() {
    let input = "Package: a\nVersion: 1.0\n\nPackage: b\nVersion: 2.0\n";
    let paras = parse_control_strict(input);
    assert!(paras.iter().all(|p| p.is_ok()));
}

#[test]
fn binary_stanza_strict_rejects_dupes() {
    let stanza = "Package: a\nVersion: 1.0\nPackage: b\n";
    assert!(matches!(
        BinaryPackage::parse_stanza_strict(stanza),
        Err(ControlError::DuplicateField(_))
    ));
}

#[test]
fn packages_index_strict_iter() {
    let index = "Package: a\nVersion: 1.0\nPackage: a2\nVersion: 1.0\n";
    let idx = PackagesIndex::new(index);
    let results: Vec<_> = idx.iter_results_strict();
    assert_eq!(results.len(), 1);
    assert!(results[0].is_err());
}

#[test]
fn control_file_parses_single_stanza() {
    let doc = "Package: hello\nVersion: 1.0-1\nArchitecture: amd64\n";
    let cf = ControlFile::parse(doc).unwrap();
    assert_eq!(cf.field("Package"), Some("hello"));
    assert_eq!(cf.field("version"), Some("1.0-1"));
    assert_eq!(cf.field("Architecture"), Some("amd64"));
}

#[test]
fn control_file_rejects_duplicate_fields() {
    let doc = "Package: a\nVersion: 1.0\nPackage: b\n";
    assert!(matches!(
        ControlFile::parse(doc),
        Err(ControlError::DuplicateField(_))
    ));
}

#[test]
fn control_file_rejects_multiple_stanzas() {
    let doc = "Package: a\nVersion: 1.0\n\nPackage: b\nVersion: 2.0\n";
    assert!(matches!(
        ControlFile::parse(doc),
        Err(ControlError::UnexpectedMultipleStanzas(_))
    ));
}

#[test]
fn control_file_empty_document_errors() {
    assert!(ControlFile::parse("   \n  ").is_err());
}

#[test]
fn sources_index_streams_entries() {
    let index = "\
Package: glibc
Version: 2.38-1
Directory: pool/main/g/glibc

Package: bash
Version: 5.2-1
Directory: pool/main/b/bash
";
    let idx = SourcesIndex::new(index);
    assert_eq!(idx.len(), 2);
    let names: Vec<_> = idx.iter().into_iter().map(|p| p.name).collect();
    assert_eq!(names, vec!["glibc".to_string(), "bash".to_string()]);
}

#[test]
fn sources_index_reports_parse_errors() {
    let index = "Package: glibc\nVersion: 2.38-1\n\nVersion: 5.2-1\n";
    let idx = SourcesIndex::new(index);
    let results: Vec<_> = idx.iter_results();
    assert_eq!(results.len(), 2);
    assert!(results[0].is_ok());
    assert!(results[1].is_err());
}

#[test]
fn borrowed_paragraph_zero_copy_get() {
    let input = "Package: hello\nVersion: 1.0-1\nArchitecture: amd64\n";
    let paras = parse_control_borrowed(input);
    assert_eq!(paras.len(), 1);
    assert_eq!(paras[0].get("package"), Some("hello"));
    assert_eq!(paras[0].get("Version"), Some("1.0-1"));
    assert_eq!(paras[0].get("ARCHITECTURE"), Some("amd64"));
    assert!(paras[0].get("Missing").is_none());
}

#[test]
fn borrowed_paragraph_folding_allocates_only_when_needed() {
    let stanza = "\
Package: foo
Version: 1.0
Description: short synopsis
 this is a continuation line
";
    let para = parse_borrowed_paragraph(stanza, false).unwrap();
    let desc = para.get("Description").unwrap();
    assert!(desc.starts_with("short synopsis"));
    assert!(desc.contains("this is a continuation line"));
    assert_eq!(para.get("Package"), Some("foo"));
}

#[test]
fn borrowed_paragraph_strict_rejects_dupes() {
    let input = "Package: a\nVersion: 1.0\nPackage: b\n";
    let paras = parse_control_strict_borrowed(input);
    assert_eq!(paras.len(), 1);
    assert!(matches!(paras[0], Err(ControlError::DuplicateField(_))));
}

#[test]
fn packages_index_iter_paragraphs_is_zero_copy() {
    let index = "\
Package: a
Version: 1.0

Package: b
Version: 2.0
";
    let idx = PackagesIndex::new(index);
    let names: Vec<_> = idx
        .iter_paragraphs()
        .iter()
        .map(|p| p.get("Package").unwrap().to_string())
        .collect();
    assert_eq!(names, vec!["a".to_string(), "b".to_string()]);
}

#[test]
fn sources_index_iter_paragraphs_is_zero_copy() {
    let index = "\
Package: glibc
Version: 2.38-1

Package: bash
Version: 5.2-1
";
    let idx = SourcesIndex::new(index);
    let names: Vec<_> = idx
        .iter_paragraphs()
        .iter()
        .map(|p| p.get("Package").unwrap().to_string())
        .collect();
    assert_eq!(names, vec!["glibc".to_string(), "bash".to_string()]);
}

// ── Further cases ────────────────────────────────────────────────────────────

#[test]
fn invalid_installed_size_is_dropped() {
    let pkg = BinaryPackage::parse_stanza("Package: a\nVersion: 1\nInstalled-Size: x12\nSize: 42\n").unwrap();
    assert_eq!(pkg.installed_size, None);
    assert_eq!(pkg.size, Some(42));
    assert_eq!(pkg.architecture, "all");
}

#[test]
fn missing_version_is_error() {
    assert!(matches!(
        BinaryPackage::parse_stanza("Package: a\n"),
        Err(ControlError::MissingField(_))
    ));
}

#[test]
fn control_paragraph_set_overwrites() {
    let mut p = ControlParagraph::new();
    p.set("Package", "a");
    p.set("Package", "b");
    assert_eq!(p.get("PACKAGE"), Some("b"));
    assert_eq!(p.fields().len(), 1);
}

#[test]
fn source_package_falls_back_to_source_field() {
    let src = SourcePackage::parse_stanza("Source: bash\nVersion: 5.2-1\n").unwrap();
    assert_eq!(src.name, "bash");
    assert_eq!(src.maintainer, "");
}

#[test]
fn control_file_into_paragraph_keeps_fields() {
    let cf = ControlFile::parse("Package: hello\nVersion: 1.0\n").unwrap();
    let p = cf.into_paragraph();
    assert_eq!(p.get("version"), Some("1.0"));
}

#[test]
fn owned_and_borrowed_paragraphs_agree() {
    let text = "Package: curl\nVersion: 7.88\nDescription: a tool\n more text\n\nPackage: vim\n";
    let owned = parse_control(text);
    let borrowed = parse_control_borrowed(text);
    assert_eq!(owned.len(), borrowed.len());
    for (o, b) in owned.iter().zip(borrowed.iter()) {
        assert_eq!(o.fields(), b.fields());
    }
}

#[test]
fn owned_and_borrowed_get_agree_on_ascii_names() {
    let input = "Package: foo\nVersion: 1.0\nX-Custom: v\n\nPackage: bar\n";
    let owned = parse_control(input);
    let borrowed = parse_control_borrowed(input);
    assert_eq!(owned.len(), borrowed.len());
    for (o, b) in owned.iter().zip(borrowed.iter()) {
        for k in ["Package", "PACKAGE", "version", "x-custom", "Missing"] {
            assert_eq!(o.get(k), b.get(k));
        }
    }
    assert_eq!(owned[0].get("PACKAGE"), Some("foo"));
}
