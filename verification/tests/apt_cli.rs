use debkit::apt_cli::{
    default_cache_dir, download_url, fetch_tasks, index_source_uri, maybe_gunzip, packages_url, resolve_install,
    url_slug, Apt,
};
use debkit::control_file::BinaryPackage;
use debkit::deb_version::Version;
use debkit::dpkg_db::StatusDb;
use debkit::sources_list::SourcesList;
use std::io::Write;

const PACKAGES: &str = "\
Package: curl
Version: 8.2.1-1
Architecture: amd64
Description: command line tool for transferring data
Filename: pool/main/c/curl/curl_8.2.1-1_amd64.deb

Package: libcurl4
Version: 8.2.1-1
Architecture: amd64
Description: easy-to-use client-side URL transfer library
Filename: pool/main/c/curl/libcurl4_8.2.1-1_amd64.deb
";

const STATUS: &str = "\
Package: bash
Status: install ok installed
Architecture: amd64
Version: 5.1-6

Package: removed
Status: deinstall ok config-files
Architecture: amd64
Version: 1.0
";

fn index() -> Vec<BinaryPackage> {
    BinaryPackage::parse_packages_index(PACKAGES).into_iter().filter_map(Result::ok).collect()
}

fn apt() -> Apt {
    Apt::new(false, "/tmp/cache".to_string())
}

#[test]
fn search_matches_name_and_description() {
    let idx = index();
    let hits = apt().search(&idx, "curl");
    assert_eq!(hits.len(), 2);
    let hits = apt().search(&idx, "transfer library");
    assert_eq!(hits.len(), 1);
    assert_eq!(hits[0].name, "libcurl4");
}

#[test]
fn show_returns_exact_package() {
    let idx = index();
    let pkg = apt().show(&idx, "curl");
    assert!(pkg.is_some());
    assert_eq!(pkg.unwrap().version_str, "8.2.1-1");
    assert!(apt().show(&idx, "nope").is_none());
}

#[test]
fn list_filters_installed() {
    let db = StatusDb::parse_str(STATUS).unwrap();
    let a = apt().with_status("/tmp/status".to_string());
    let all = a.list(&db, false);
    assert_eq!(all.len(), 2);
    let installed = a.list(&db, true);
    assert_eq!(installed.len(), 1);
    assert_eq!(installed[0].name, "bash");
}

// ── Further cases ────────────────────────────────────────────────────────────

#[test]
fn search_is_case_insensitive_and_sorted() {
    let text = "Package: zed\nVersion: 1\nDescription: An Editor\n\nPackage: abc\nVersion: 2\nDescription: editor tools\n";
    let idx: Vec<BinaryPackage> = BinaryPackage::parse_packages_index(text).into_iter().filter_map(Result::ok).collect();
    let hits = apt().search(&idx, "EDITOR");
    let names: Vec<&str> = hits.iter().map(|h| h.name.as_str()).collect();
    assert_eq!(names, vec!["abc", "zed"]);
    assert_eq!(hits[1].description, "An Editor");
    assert_eq!(apt().search(&idx, "").len(), 2);
}

#[test]
fn builders_set_fields() {
    let a = Apt::new(true, "/c".to_string())
        .with_status("/s".to_string())
        .with_sources(Some("/l".to_string()))
        .with_cache_dir("/d".to_string());
    assert_eq!(a.cache_dir, "/d");
    assert_eq!(a.status_path, "/s");
    assert_eq!(a.sources_path.as_deref(), Some("/l"));
    assert!(a.dry_run && a.progress);
    assert_eq!(Apt::new(false, "/c".to_string()).status_path, "/var/lib/dpkg/status");
}

#[test]
fn cache_dir_prefers_xdg_then_home() {
    assert_eq!(default_cache_dir(Some("/x"), Some("/h"), None), "/x/tpt-apt");
    assert_eq!(default_cache_dir(None, Some("/home/u"), Some("/l")), "/home/u/.cache/tpt-apt");
    assert_eq!(default_cache_dir(None, None, Some("C:/L/")), "C:/L/tpt-apt");
    assert_eq!(default_cache_dir(None, None, None), ".tpt-apt");
}

#[test]
fn index_urls_and_slugs() {
    let list = SourcesList::parse_one_line("deb http://deb.debian.org/debian/ bookworm main contrib\n").unwrap();
    let e = &list.entries[0];
    assert_eq!(
        packages_url(e, "main", "amd64"),
        "http://deb.debian.org/debian/dists/bookworm/main/binary-amd64/Packages"
    );
    assert_eq!(url_slug("http://deb.debian.org/debian/", "bookworm", "main"), "deb.debian.org_debian_bookworm_main");
    assert_eq!(url_slug("file:/srv:x", "s", "c"), "file__srv_x_s_c");
    let tasks = fetch_tasks(&list, "/var/cache");
    assert_eq!(tasks.len(), 2);
    assert_eq!(tasks[1].1, "/var/cache/deb.debian.org_debian_bookworm_contrib.packages");
    assert_eq!(index_source_uri(&list).as_deref(), Some("http://deb.debian.org/debian/"));
    assert_eq!(download_url("http://h/debian//", "/pool/a.deb"), "http://h/debian/pool/a.deb");
}

#[test]
fn disabled_and_source_entries_fetch_nothing() {
    let list = SourcesList::parse_one_line("deb-src http://h/d s main\n# deb http://h/d s main\n").unwrap();
    assert!(fetch_tasks(&list, "/c").is_empty());
    assert!(index_source_uri(&list).is_none());
}

#[test]
fn gunzip_only_gzip_data() {
    let mut enc = flate2::write::GzEncoder::new(Vec::new(), flate2::Compression::default());
    enc.write_all(b"Package: x\n").unwrap();
    let gz = enc.finish().unwrap();
    assert_eq!(maybe_gunzip(&gz), b"Package: x\n".to_vec());
    assert_eq!(maybe_gunzip(b"plain"), b"plain".to_vec());
    assert_eq!(maybe_gunzip(&[0x1f, 0x8b, 0x00]), vec![0x1f, 0x8b, 0x00]);
}

#[test]
fn install_plan_from_index() {
    let idx = index();
    let r = resolve_install(&idx, &["curl".to_string()]).unwrap();
    assert_eq!(r, vec![("curl".to_string(), Version::parse("8.2.1-1").unwrap())]);
    assert_eq!(
        resolve_install(&[], &["curl".to_string()]).unwrap_err(),
        "no cached package indices; run `update` first (or point --config at a sources list)"
    );
    assert_eq!(
        resolve_install(&idx, &["nope".to_string()]).unwrap_err(),
        "dependency resolution failed: unknown package: nope"
    );
}

#[test]
fn search_does_not_match_across_name_and_description() {
    let idx = index();
    assert!(apt().search(&idx, "curl command").is_empty());
    assert_eq!(apt().search(&idx, "command line").len(), 1);
}
