use debkit::maintainer_scripts::{
    exit_to_outcome, PackageRef, RunnerConfig, ScriptError, ScriptRunner,
};
use debkit::paths::join_path;
use std::collections::HashMap;

fn pkg() -> PackageRef {
    PackageRef {
        name: "curl".into(),
        version: "8.2.1-1".into(),
        arch: "amd64".into(),
    }
}

#[test]
fn plan_sets_dpkg_env_vars() {
    let runner = ScriptRunner::new("/tmp/ctrl".to_string(), pkg());
    let env: HashMap<_, _> = runner.script_env().into_iter().collect();
    assert_eq!(env.get("DPKG_MAINTSCRIPT_PACKAGE").unwrap(), "curl");
    assert_eq!(env.get("DPKG_MAINTSCRIPT_VERSION").unwrap(), "8.2.1-1");
    assert_eq!(env.get("DPKG_MAINTSCRIPT_ARCH").unwrap(), "amd64");
    assert_eq!(env.get("DEBIAN_FRONTEND").unwrap(), "noninteractive");
    assert_eq!(env.get("PATH").unwrap(), "/usr/sbin:/usr/bin:/sbin:/bin");
}

#[test]
fn plan_default_frontend_overridable() {
    let mut config = RunnerConfig {
        control_dir: "/tmp/ctrl".to_string(),
        ..Default::default()
    };
    config.debian_frontend = Some("noninteractive".into());
    let runner = ScriptRunner::new("/tmp/ctrl".to_string(), pkg()).with_config(config);
    let env: HashMap<_, _> = runner.script_env().into_iter().collect();
    assert_eq!(env.get("DEBIAN_FRONTEND").unwrap(), "noninteractive");
}

#[test]
fn missing_script_is_error() {
    let runner = ScriptRunner::new("/nonexistent-dir-xyz".to_string(), pkg());
    let path = runner.script_path("postinst");
    let exists = std::path::Path::new(&path).exists();
    let err = runner.plan("postinst", "configure", exists);
    assert!(matches!(err, Err(ScriptError::ScriptNotFound(..))));
}

#[test]
fn unrestricted_disables_sandbox() {
    let runner = ScriptRunner::unrestricted("/tmp/ctrl".to_string(), pkg());
    assert!(!runner.is_sandboxed());
}

// ── Further cases ────────────────────────────────────────────────────────────

#[test]
fn env_has_root_and_admindir_and_no_duplicates() {
    let runner = ScriptRunner::new("/tmp/ctrl".to_string(), pkg());
    let env = runner.script_env();
    let map: HashMap<_, _> = env.iter().cloned().collect();
    assert_eq!(map.len(), env.len());
    assert_eq!(map.get("DPKG_ROOT").unwrap(), "/");
    assert_eq!(map.get("DPKG_ADMINDIR").unwrap(), "/var/lib/dpkg");
}

#[test]
fn extra_env_overrides_and_frontend_is_configurable() {
    let config = RunnerConfig {
        control_dir: "/x".to_string(),
        debian_frontend: Some("readline".to_string()),
        extra_env: vec![
            ("PATH".to_string(), "/opt/bin".to_string()),
            ("FOO".to_string(), "bar".to_string()),
        ],
        root: "/srv/chroot".to_string(),
        ..Default::default()
    };
    let runner = ScriptRunner::new("/x".to_string(), pkg()).with_config(config);
    let env: HashMap<_, _> = runner.script_env().into_iter().collect();
    assert_eq!(env.get("PATH").unwrap(), "/opt/bin");
    assert_eq!(env.get("FOO").unwrap(), "bar");
    assert_eq!(env.get("DEBIAN_FRONTEND").unwrap(), "readline");
    assert_eq!(env.get("DPKG_ADMINDIR").unwrap(), "/srv/chroot/var/lib/dpkg");
    let later = runner.env_map(&vec![("FOO".to_string(), "baz".to_string())]);
    let later: HashMap<_, _> = later.into_iter().collect();
    assert_eq!(later.get("FOO").unwrap(), "baz");
}

#[test]
fn plan_of_existing_script() {
    let runner = ScriptRunner::new("/var/lib/dpkg/info".to_string(), pkg());
    let plan = runner.plan("postinst", "configure", true).unwrap();
    assert_eq!(plan.script_path, "/var/lib/dpkg/info/postinst");
    assert_eq!(plan.args, vec!["configure".to_string()]);
    assert_eq!(plan.script_name(), Some("postinst".to_string()));
    assert_eq!(plan.env, runner.script_env());
}

#[test]
fn path_join_and_file_name() {
    assert_eq!(join_path("/a/", "b"), "/a/b");
    assert_eq!(join_path("/a", "/b"), "/b");
    assert_eq!(join_path("", "b"), "b");
    let runner = ScriptRunner::new("d".to_string(), pkg());
    for (script, name) in [("x/./", Some("x")), ("..", None), ("a/b/", Some("b"))] {
        let plan = runner.plan(script, "configure", true).unwrap();
        assert_eq!(plan.script_name(), name.map(|s| s.to_string()));
    }
}

#[test]
fn exit_codes_map_to_outcomes() {
    let ok = exit_to_outcome(Some(0)).unwrap();
    assert!(ok.success());
    let bad = exit_to_outcome(Some(3)).unwrap();
    assert!(!bad.success());
    assert_eq!(bad.exit_code, 3);
    assert!(matches!(exit_to_outcome(None), Err(ScriptError::Signaled)));
    assert_eq!(
        ScriptError::ScriptNotFound("postinst".into(), "/d".into()).to_string(),
        "maintainer script 'postinst' not found in /d"
    );
}
