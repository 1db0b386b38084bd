use debkit::sources_list::{Options, SourceEntry, SourceType, SourcesError, SourcesList};

const ONE_LINE_SAMPLE: &str = "\
# Ubuntu main archive
deb http://archive.ubuntu.com/ubuntu focal main restricted universe
deb http://archive.ubuntu.com/ubuntu focal-updates main restricted
deb-src http://archive.ubuntu.com/ubuntu focal main
# deb http://archive.ubuntu.com/ubuntu focal-backports main
";

const DEB822_SAMPLE: &str = "\
Types: deb deb-src
URIs: http://archive.ubuntu.com/ubuntu
Suites: focal
Components: main restricted
Enabled: yes
Signed-By: /usr/share/keyrings/ubuntu-archive-keyring.gpg

Types: deb
URIs: http://archive.ubuntu.com/ubuntu
Suites: focal-updates
Components: main restricted
Enabled: no
";

#[test]
fn parse_standard_ubuntu_sources_list() {
    let sl = SourcesList::parse_one_line(ONE_LINE_SAMPLE).unwrap();
    assert_eq!(sl.entries.len(), 4);
}

#[test]
fn active_entries_excludes_disabled() {
    let sl = SourcesList::parse_one_line(ONE_LINE_SAMPLE).unwrap();
    let active: Vec<_> = sl.active_entries();
    assert_eq!(active.len(), 3);
    assert!(active.iter().all(|e| e.enabled));
}

#[test]
fn disabled_entry_parsed() {
    let sl = SourcesList::parse_one_line(ONE_LINE_SAMPLE).unwrap();
    let disabled: Vec<_> = sl.entries().into_iter().filter(|e| !e.enabled).collect();
    assert_eq!(disabled.len(), 1);
    assert!(disabled[0].suite.contains("backports"));
}

#[test]
fn source_type_variants_present() {
    let sl = SourcesList::parse_one_line(ONE_LINE_SAMPLE).unwrap();
    assert!(sl.entries().iter().any(|e| e.source_type == SourceType::Binary));
    assert!(sl.entries().iter().any(|e| e.source_type == SourceType::Source));
}

#[test]
fn options_block_parsed() {
    let input = "deb [arch=amd64 signed-by=/path/to/key.gpg] http://example.com focal main\n";
    let sl = SourcesList::parse_one_line(input).unwrap();
    let e = &sl.entries[0];
    assert_eq!(e.options.get("arch"), Some(&"amd64".to_string()));
    assert_eq!(e.options.get("signed-by"), Some(&"/path/to/key.gpg".to_string()));
}

#[test]
fn write_one_line_round_trip() {
    let input = "deb http://archive.ubuntu.com/ubuntu focal main restricted\n";
    let sl = SourcesList::parse_one_line(input).unwrap();
    let out = sl.write_one_line();
    let sl2 = SourcesList::parse_one_line(&out).unwrap();
    assert_eq!(sl2.entries.len(), sl.entries.len());
    assert_eq!(sl2.entries[0].uri, sl.entries[0].uri);
    assert_eq!(sl2.entries[0].suite, sl.entries[0].suite);
}

#[test]
fn write_one_line_disabled_entries_commented() {
    let input = "# deb http://archive.ubuntu.com/ubuntu focal-backports main\n";
    let sl = SourcesList::parse_one_line(input).unwrap();
    let out = sl.write_one_line();
    assert!(
        out.starts_with("# deb"),
        "disabled entry should start with '# deb'; got: {:?}",
        out
    );
}

#[test]
fn parse_deb822_stanza_test() {
    let sl = SourcesList::parse_deb822(DEB822_SAMPLE).unwrap();
    assert_eq!(sl.entries.len(), 3);
}

#[test]
fn deb822_disabled_excluded_from_active() {
    let sl = SourcesList::parse_deb822(DEB822_SAMPLE).unwrap();
    assert_eq!(sl.active_entries().len(), 2);
}

#[test]
fn deb822_signed_by_in_options() {
    let sl = SourcesList::parse_deb822(DEB822_SAMPLE).unwrap();
    assert_eq!(
        sl.entries[0].options.get("signed-by"),
        Some(&"/usr/share/keyrings/ubuntu-archive-keyring.gpg".to_string())
    );
}

#[test]
fn release_url_format() {
    let e = SourceEntry {
        source_type: SourceType::Binary,
        uri: "http://archive.ubuntu.com/ubuntu".to_string(),
        suite: "focal".to_string(),
        components: vec!["main".to_string()],
        options: Options::new(),
        enabled: true,
    };
    assert_eq!(e.release_url(), "http://archive.ubuntu.com/ubuntu/dists/focal/InRelease");
}

#[test]
fn uri_validation_accepts_valid_schemes() {
    let e = SourceEntry {
        source_type: SourceType::Binary,
        uri: "https://archive.ubuntu.com/ubuntu".to_string(),
        suite: "focal".to_string(),
        components: vec!["main".to_string()],
        options: Options::new(),
        enabled: true,
    };
    assert!(e.is_valid_uri());
    assert!(SourcesList::parse_one_line("deb https://example.com focal main")
        .unwrap()
        .validate()
        .is_ok());
}

#[test]
fn uri_validation_rejects_bad_uris() {
    for bad in ["not a uri", "ftp://", "://nohost", "weird://x", ""] {
        let sl = SourcesList::parse_one_line(&format!("deb {} focal main", bad));
        let result = match &sl {
            Ok(s) => s.validate(),
            Err(_) => continue,
        };
        assert!(result.is_err(), "expected {:?} to be invalid", bad);
    }
}

#[test]
fn write_deb822_round_trip() {
    let input = "deb http://archive.ubuntu.com/ubuntu focal main restricted\n\
                 deb-src http://archive.ubuntu.com/ubuntu focal main\n";
    let sl = SourcesList::parse_one_line(input).unwrap();
    let deb822 = sl.write_deb822();
    let sl2 = SourcesList::parse_deb822(&deb822).unwrap();
    assert_eq!(sl2.entries.len(), 2);
    assert!(sl2.entries.iter().any(|e| e.source_type == SourceType::Binary));
    assert!(sl2.entries.iter().any(|e| e.source_type == SourceType::Source));
}

// ── Further cases ────────────────────────────────────────────────────────────

#[test]
fn packages_url_format() {
    let sl = SourcesList::parse_one_line("deb http://example.com/debian/ bookworm main\n").unwrap();
    let e = &sl.entries[0];
    assert_eq!(
        e.packages_url("main", "amd64"),
        "http://example.com/debian/dists/bookworm/main/binary-amd64/Packages"
    );
}

#[test]
fn malformed_line_is_parse_error() {
    assert!(matches!(
        SourcesList::parse_one_line("deb http://example.com\n"),
        Err(SourcesError::Parse(_))
    ));
}

#[test]
fn one_line_written_form_is_exact() {
    let sl = SourcesList::parse_one_line("deb [arch=amd64] http://example.com focal main contrib\n").unwrap();
    assert_eq!(sl.write_one_line(), "deb [arch=amd64] http://example.com focal main contrib\n");
}

#[test]
fn deb822_stanza_without_uris_gives_no_entries() {
    assert_eq!(SourcesList::parse_deb822("Types: deb\nSuites: focal\n").unwrap().entries.len(), 0);
    assert!(SourcesList::parse_deb822("Types: deb\nnot a field line\n").is_err());
}

#[test]
fn binary_and_source_entries_split() {
    let sl = SourcesList::parse_one_line(ONE_LINE_SAMPLE).unwrap();
    assert_eq!(sl.binary_entries().len(), 2);
    assert_eq!(sl.source_entries().len(), 1);
}

#[test]
fn options_insert_overwrites() {
    let mut o = Options::new();
    o.insert("arch".to_string(), "amd64".to_string());
    o.insert("arch".to_string(), "arm64".to_string());
    assert_eq!(o.len(), 1);
    assert_eq!(o.get("arch"), Some(&"arm64".to_string()));
}
