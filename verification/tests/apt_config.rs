use debkit::apt_config::{AptConfig, ConfigError};
use debkit::config_parser::{parse_into, parse_with_directives};

#[test]
fn parse_flat_key_syntax() {
    let input = r#"APT::Get::Assume-Yes "true";"#;
    let mut cfg = AptConfig::new();
    parse_into(input, "", &mut cfg).unwrap();
    assert_eq!(cfg.get("APT::Get::Assume-Yes"), Some("true"));
}

#[test]
fn parse_nested_scope_block() {
    let input = r#"
APT {
  Get {
    Assume-Yes "true";
    List-Cleanup "false";
  };
  Cache {
    Dir "/var/cache/apt";
  };
};
"#;
    let mut cfg = AptConfig::new();
    parse_into(input, "", &mut cfg).unwrap();
    assert_eq!(cfg.get("APT::Get::Assume-Yes"), Some("true"));
    assert_eq!(cfg.get("APT::Get::List-Cleanup"), Some("false"));
    assert_eq!(cfg.get("APT::Cache::Dir"), Some("/var/cache/apt"));
}

#[test]
fn parse_mixed_flat_and_nested() {
    let input = r#"
APT::Acquire::Retries "3";
Dir {
  Etc {
    SourceList "/etc/apt/sources.list";
  };
};
"#;
    let mut cfg = AptConfig::new();
    parse_into(input, "", &mut cfg).unwrap();
    assert_eq!(cfg.get("APT::Acquire::Retries"), Some("3"));
    assert_eq!(cfg.get("Dir::Etc::SourceList"), Some("/etc/apt/sources.list"));
}

#[test]
fn parse_line_comment() {
    let input = r#"
// this is a comment
APT::Get::Assume-Yes "true"; // inline comment ignored (not parsed here)
"#;
    let mut cfg = AptConfig::new();
    parse_into(input, "", &mut cfg).unwrap();
    assert_eq!(cfg.get("APT::Get::Assume-Yes"), Some("true"));
}

#[test]
fn get_bool_true_variants() {
    let mut cfg = AptConfig::new();
    cfg.set("A", "true");
    cfg.set("B", "yes");
    cfg.set("C", "1");
    assert_eq!(cfg.get_bool("A"), Some(true));
    assert_eq!(cfg.get_bool("B"), Some(true));
    assert_eq!(cfg.get_bool("C"), Some(true));
}

#[test]
fn get_bool_false_variants() {
    let mut cfg = AptConfig::new();
    cfg.set("A", "false");
    cfg.set("B", "no");
    cfg.set("C", "0");
    assert_eq!(cfg.get_bool("A"), Some(false));
    assert_eq!(cfg.get_bool("B"), Some(false));
    assert_eq!(cfg.get_bool("C"), Some(false));
}

#[test]
fn get_bool_missing_returns_none() {
    let cfg = AptConfig::new();
    assert_eq!(cfg.get_bool("nonexistent"), None);
}

#[test]
fn get_or_default_falls_back() {
    let cfg = AptConfig::new();
    assert_eq!(
        cfg.get_or_default("Dir::Etc::SourceList", "/etc/apt/sources.list"),
        "/etc/apt/sources.list"
    );
}

#[test]
fn get_or_default_returns_value_when_present() {
    let mut cfg = AptConfig::new();
    cfg.set("Key", "custom");
    assert_eq!(cfg.get_or_default("Key", "default"), "custom");
}

#[test]
fn merge_other_wins_on_conflict() {
    let mut base = AptConfig::new();
    base.set("Key", "base_value");

    let mut other = AptConfig::new();
    other.set("Key", "other_value");
    other.set("New", "new_value");

    base.merge(other);
    assert_eq!(base.get("Key"), Some("other_value"));
    assert_eq!(base.get("New"), Some("new_value"));
}

#[test]
fn get_int_parses_integer() {
    let mut cfg = AptConfig::new();
    cfg.set("APT::Acquire::Retries", "3");
    assert_eq!(cfg.get_int("APT::Acquire::Retries"), Some(3));
    assert_eq!(cfg.get_int("missing"), None);
    cfg.set("Bad", "not-a-number");
    assert_eq!(cfg.get_int("Bad"), None);
}

#[test]
fn list_append_syntax_builds_list() {
    let input = r#"
Acquire::http::Proxy:: "http://proxy1:3128";
Acquire::http::Proxy:: "http://proxy2:3128";
"#;
    let mut cfg = AptConfig::new();
    parse_into(input, "", &mut cfg).unwrap();
    let list = cfg.get_list("Acquire::http::Proxy");
    assert_eq!(list.len(), 2);
    assert_eq!(list[0], "http://proxy1:3128");
    assert_eq!(list[1], "http://proxy2:3128");
}

#[test]
fn scalar_and_list_keys_are_distinct() {
    let mut cfg = AptConfig::new();
    parse_into(r#"Key "scalar"; Key:: "a"; Key:: "b";"#, "", &mut cfg).unwrap();
    assert_eq!(cfg.get("Key"), None);
    let list = cfg.get_list("Key");
    assert_eq!(list.len(), 3);
    assert_eq!(list[0], "scalar");
    assert_eq!(list[1], "a");
    assert_eq!(list[2], "b");
}

// ── Further cases ────────────────────────────────────────────────────────────

#[test]
fn get_after_set_and_others_unchanged() {
    let mut cfg = AptConfig::new();
    cfg.set("A", "1");
    cfg.set("B", "2");
    cfg.set("A", "3");
    assert_eq!(cfg.get("A"), Some("3"));
    assert_eq!(cfg.get("B"), Some("2"));
}

#[test]
fn merge_keeps_keys_only_in_base() {
    let mut base = AptConfig::new();
    base.set("Only", "base");
    let other = AptConfig::new();
    base.merge(other);
    assert_eq!(base.get("Only"), Some("base"));
}

#[test]
fn get_int_accepts_negative_and_rejects_overflow() {
    let mut cfg = AptConfig::new();
    cfg.set("N", "-42");
    cfg.set("Big", "99999999999999999999");
    assert_eq!(cfg.get_int("N"), Some(-42));
    assert_eq!(cfg.get_int("Big"), None);
}

#[test]
fn unterminated_string_is_parse_error() {
    let mut cfg = AptConfig::new();
    let r = parse_into(r#"Key "unterminated"#, "", &mut cfg);
    assert!(matches!(r, Err(ConfigError::Parse(_))));
}

#[test]
fn prefix_is_prepended_to_keys() {
    let mut cfg = AptConfig::new();
    parse_into(r#"Retries "3";"#, "Acquire", &mut cfg).unwrap();
    assert_eq!(cfg.get("Acquire::Retries"), Some("3"));
}

#[test]
fn include_directives_are_reported() {
    let mut cfg = AptConfig::new();
    let dirs = parse_with_directives("#include \"/etc/apt/extra.conf\";\nA \"1\";\n", "", &mut cfg).unwrap();
    assert_eq!(cfg.get("A"), Some("1"));
    assert_eq!(dirs.len(), 1);
    assert_eq!(dirs[0].path, "/etc/apt/extra.conf");
    assert!(!dirs[0].is_dir);
}

#[test]
fn default_paths() {
    let cfg = AptConfig::new();
    assert_eq!(cfg.sources_list_path(), "/etc/apt/sources.list");
    assert_eq!(cfg.status_db_path(), "/var/lib/dpkg/status");
}

#[test]
fn get_bool_folds_ascii_case() {
    let mut cfg = AptConfig::new();
    cfg.set("A", "TRUE");
    cfg.set("B", " No ");
    cfg.set("C", "maybe");
    assert_eq!(cfg.get_bool("A"), Some(true));
    assert_eq!(cfg.get_bool("B"), Some(false));
    assert_eq!(cfg.get_bool("C"), None);
}
