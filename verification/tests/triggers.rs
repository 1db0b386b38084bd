use debkit::dpkg_db::InstallStatus;
use debkit::triggers::status::{clear, mark_awaited, mark_pending};
use debkit::triggers::{Trigger, TriggerDb, TriggerError};

#[test]
fn interest_then_activate_marks_pending() {
    let mut db = TriggerDb::new();
    db.interest("man-db", "man-db-rebuild", true);
    let affected = db.activate("man-db-rebuild");
    assert_eq!(affected, vec!["man-db".to_string()]);
    assert!(db.is_pending("man-db"));
    assert_eq!(db.pending_of("man-db"), &["man-db-rebuild".to_string()]);
}

#[test]
fn activate_is_idempotent() {
    let mut db = TriggerDb::new();
    db.interest("a", "t", true);
    db.activate("t");
    let again = db.activate("t");
    assert!(again.is_empty());
    assert_eq!(db.pending_of("a"), &["t".to_string()]);
}

#[test]
fn process_returns_and_clears_pending() {
    let mut db = TriggerDb::new();
    db.interest("a", "t1", true);
    db.interest("a", "t2", true);
    db.activate_all(&["t1", "t2"]);
    let mut todo = db.process("a");
    todo.sort();
    assert_eq!(todo, vec!["t1".to_string(), "t2".to_string()]);
    assert!(!db.is_pending("a"));
}

#[test]
fn only_interested_packages_affected() {
    let mut db = TriggerDb::new();
    db.interest("a", "shared", true);
    db.interest("b", "other", true);
    let affected = db.activate("shared");
    assert_eq!(affected, vec!["a".to_string()]);
}

#[test]
fn status_transitions() {
    assert_eq!(mark_pending(InstallStatus::Installed), InstallStatus::TriggersPending);
    assert_eq!(mark_awaited(InstallStatus::Installed), InstallStatus::TriggersAwaited);
    assert_eq!(clear(InstallStatus::TriggersPending), InstallStatus::Installed);
    assert_eq!(clear(InstallStatus::TriggersAwaited), InstallStatus::Installed);
    assert_eq!(mark_pending(InstallStatus::HalfInstalled), InstallStatus::HalfInstalled);
}

// ── Further cases ────────────────────────────────────────────────────────────

#[test]
fn interests_and_pending_files_round_trip() {
    let mut db = TriggerDb::new();
    db.interest("man-db", "man-db-rebuild", true);
    db.interest("libc6", "ldconfig", false);
    db.activate_all(&["man-db-rebuild", "ldconfig"]);
    let interests = db.interests_file();
    let mut db2 = TriggerDb::new();
    db2.load_interests(&interests).unwrap();
    for p in db.pending_packages() {
        db2.load_pending(p, &db.pending_file(p));
    }
    assert!(db2.is_pending("man-db"));
    assert!(db2.is_pending("libc6"));
    assert!(db2.interests_of("man-db")[0].awaited);
    assert!(!db2.interests_of("libc6")[0].awaited);
}

#[test]
fn malformed_interest_line_is_error() {
    let mut db = TriggerDb::new();
    assert!(matches!(db.load_interests("onlyonefield\n"), Err(TriggerError::Malformed(_))));
}

#[test]
fn activate_all_reports_each_package_once_sorted() {
    let mut db = TriggerDb::new();
    db.interest("b", "t1", true);
    db.interest("a", "t2", true);
    db.interest("b", "t2", true);
    let affected = db.activate_all(&["t1", "t2"]);
    assert_eq!(affected, vec!["a".to_string(), "b".to_string()]);
}

#[test]
fn add_trigger_and_noawait() {
    let mut db = TriggerDb::new();
    db.add_trigger("p", Trigger::interest_noawait("x"));
    assert_eq!(db.interests_of("p"), &[Trigger::interest_noawait("x")]);
    assert!(!db.interests_of("p")[0].awaited);
    assert!(Trigger::interest("x").awaited);
}

#[test]
fn clear_leaves_other_states() {
    assert_eq!(clear(InstallStatus::Unpacked), InstallStatus::Unpacked);
    assert_eq!(mark_awaited(InstallStatus::ConfigFiles), InstallStatus::ConfigFiles);
}
