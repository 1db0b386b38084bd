use debkit::dpkg_db::{
    DbError, InstallStatus, PackageAction, PackageStatus, PackageWant, StatusChange, StatusDb,
};

const SAMPLE: &str = "\
Package: bash
Status: install ok installed
Priority: required
Section: shells
Architecture: amd64
Version: 5.1-6ubuntu1
Depends: base-files (>= 2.1.12), debianutils (>= 2.15)
Description: GNU Bourne Again SHell
 The GNU Bourne Again shell is a shell or command language interpreter.

Package: dpkg
Status: install ok installed
Priority: required
Section: admin
Architecture: amd64
Version: 1.21.1ubuntu2
Pre-Depends: libzstd1 (>= 1.5.1)
Description: Debian package management system
 Low-level tools.

Package: removed-pkg
Status: deinstall ok config-files
Priority: optional
Section: misc
Architecture: amd64
Version: 1.0
Description: a removed package

";

#[test]
fn parse_minimal_inline_stanza() {
    let db = StatusDb::parse_str(SAMPLE).unwrap();
    assert_eq!(db.packages().len(), 3);
}

#[test]
fn find_returns_correct_package() {
    let db = StatusDb::parse_str(SAMPLE).unwrap();
    let pkg = db.find("bash").unwrap();
    assert_eq!(pkg.name, "bash");
    assert_eq!(pkg.version, "5.1-6ubuntu1");
    assert_eq!(pkg.architecture, "amd64");
}

#[test]
fn find_returns_none_for_unknown() {
    let db = StatusDb::parse_str(SAMPLE).unwrap();
    assert!(db.find("no-such-package").is_none());
}

#[test]
fn installed_packages_filters_non_installed() {
    let db = StatusDb::parse_str(SAMPLE).unwrap();
    let installed: Vec<_> = db.installed_packages();
    assert_eq!(installed.len(), 2);
    assert!(installed.iter().all(|p| p.status.is_installed()));
    assert!(installed.iter().any(|p| p.name == "bash"));
    assert!(installed.iter().any(|p| p.name == "dpkg"));
}

#[test]
fn package_status_parse_installed() {
    let ps = PackageStatus::parse("install ok installed").unwrap();
    assert!(matches!(ps.want, PackageWant::Install));
    assert!(matches!(ps.action, PackageAction::Okay));
    assert!(matches!(ps.status, InstallStatus::Installed));
    assert!(ps.is_installed());
}

#[test]
fn package_status_parse_config_files() {
    let ps = PackageStatus::parse("deinstall ok config-files").unwrap();
    assert!(!ps.is_installed());
    assert!(matches!(ps.status, InstallStatus::ConfigFiles));
}

#[test]
fn package_status_parse_all_variants() {
    let cases: &[(&str, bool)] = &[
        ("install ok installed", true),
        ("install ok half-installed", false),
        ("deinstall ok config-files", false),
        ("install ok unpacked", false),
        ("install ok half-configured", false),
        ("install ok triggers-awaited", false),
        ("install ok triggers-pending", false),
        ("purge ok not-installed", false),
    ];
    for &(input, expect_installed) in cases {
        let ps = PackageStatus::parse(input).unwrap();
        assert_eq!(ps.is_installed(), expect_installed, "for {:?}", input);
    }
}

#[test]
fn package_status_bad_token_count_is_error() {
    assert!(PackageStatus::parse("").is_err());
    assert!(PackageStatus::parse("install ok").is_err());
    assert!(PackageStatus::parse("too many tokens here").is_err());
}

#[test]
fn is_installed_true_only_for_installed_status() {
    let ins = PackageStatus::parse("install ok installed").unwrap();
    assert!(ins.is_installed());
    let cfg = PackageStatus::parse("deinstall ok config-files").unwrap();
    assert!(!cfg.is_installed());
}

#[test]
fn apply_changes_upserts_and_removes() {
    let mut db = StatusDb::parse_str(SAMPLE).unwrap();
    let before = db.packages().len();
    db.apply_changes(&[
        StatusChange::SetStatus {
            name: "bash".to_string(),
            version: "5.2-1".to_string(),
            architecture: "amd64".to_string(),
            status: PackageStatus::parse("install ok installed").unwrap(),
        },
        StatusChange::SetStatus {
            name: "newpkg".to_string(),
            version: "0.1".to_string(),
            architecture: "amd64".to_string(),
            status: PackageStatus::parse("install ok installed").unwrap(),
        },
        StatusChange::Remove { name: "removed-pkg".to_string() },
    ])
    .unwrap();
    assert_eq!(db.find("bash").unwrap().version, "5.2-1");
    assert!(db.find("newpkg").is_some());
    assert!(db.find("removed-pkg").is_none());
    assert_eq!(db.packages().len(), before);
}

// ── Further cases ────────────────────────────────────────────────────────────

#[test]
fn render_then_parse_keeps_records() {
    let db = StatusDb::parse_str(SAMPLE).unwrap();
    let text = db.render();
    let db2 = StatusDb::parse_str(&text).unwrap();
    assert_eq!(db2.packages().len(), db.packages().len());
    assert_eq!(db2.find("bash").unwrap().version, db.find("bash").unwrap().version);
    assert!(db2.find("removed-pkg").unwrap().status.to_string() == "deinstall ok config-files");
}

#[test]
fn status_to_string_round_trips() {
    for s in ["install ok installed", "hold reinstreq half-installed", "purge ok not-installed"] {
        assert_eq!(PackageStatus::parse(s).unwrap().to_string(), s);
    }
}

#[test]
fn unknown_status_words_are_kept() {
    let ps = PackageStatus::parse("frobnicate ok wibble").unwrap();
    assert!(matches!(ps.want, PackageWant::Unknown(ref w) if w == "frobnicate"));
    assert!(matches!(ps.status, InstallStatus::Unknown(ref w) if w == "wibble"));
    assert!(!ps.is_installed());
}

#[test]
fn bad_status_error_variant() {
    assert!(matches!(PackageStatus::parse("install ok"), Err(DbError::BadStatus(_))));
}

#[test]
fn set_then_find_and_remove_then_find() {
    let mut db = StatusDb::new();
    db.apply_changes(&[StatusChange::SetStatus {
        name: "a".to_string(),
        version: "1".to_string(),
        architecture: "all".to_string(),
        status: PackageStatus::parse("install ok unpacked").unwrap(),
    }])
    .unwrap();
    assert_eq!(db.find("a").unwrap().version, "1");
    db.apply_changes(&[StatusChange::Remove { name: "a".to_string() }]).unwrap();
    assert!(db.find("a").is_none());
}
