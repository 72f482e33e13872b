use openrfd::config::{config_get, config_set, join_path, Config, ConfigError};

#[test]
fn config_ref_name_and_paths() {
    let config = Config::default();
    assert_eq!(config.pad_number(42), "0042");
    assert_eq!(config.pad_number(123456), "123456");
    assert_eq!(config.branch_name(7), "rfd/0007");
    assert_eq!(config.ref_name(42), "refs/rfd/0042");
    assert_eq!(config.rfd_dir("/repo"), "/repo/rfd");
    assert_eq!(config.rfd_path("/repo", 3), "/repo/rfd/0003");
    assert_eq!(config.templates_dir("/repo/"), "/repo/templates");
    assert_eq!(config.static_dir(""), "static");
    assert_eq!(join_path("a", "b"), "a/b");
}

#[test]
fn default_config() {
    let c = Config::default();
    assert_eq!(c.rfd.default_format, "md");
    assert_eq!(c.rfd.main_branch, "main");
    assert_eq!(c.rfd.pad_width, 4);
    assert_eq!(c.github.app_client_id, "");
    assert!(c.github.redirect_uri.is_none());
}

#[test]
fn config_set_then_get() {
    let c = Config::default();
    for (k, v) in [
        ("rfd.default_format", "adoc"),
        ("rfd.main_branch", "trunk"),
        ("github.app_client_id", "abc"),
        ("github.redirect_uri", "https://cb"),
    ] {
        let n = config_set(&c, k, v).unwrap();
        assert_eq!(config_get(&n, k).unwrap(), v);
    }
    let n = config_set(&c, "rfd.pad_width", "+6").unwrap();
    assert_eq!(n.rfd.pad_width, 6);
    assert_eq!(config_get(&n, "rfd.pad_width").unwrap(), "6");
    assert_eq!(n.pad_number(1), "000001");
    assert_eq!(config_get(&c, "github.redirect_uri").unwrap(), "");
}

#[test]
fn config_errors() {
    let c = Config::default();
    match config_get(&c, "nope") {
        Err(ConfigError::UnknownKey(k)) => assert_eq!(k, "nope"),
        other => panic!("unexpected {:?}", other),
    }
    match config_set(&c, "nope", "1") {
        Err(ConfigError::UnknownKey(k)) => assert_eq!(k, "nope"),
        other => panic!("unexpected {:?}", other),
    }
    for bad in ["", "-1", "4294967296", "12a", "+"] {
        match config_set(&c, "rfd.pad_width", bad) {
            Err(ConfigError::InvalidNumber(v)) => assert_eq!(v, bad),
            other => panic!("unexpected {:?}", other),
        }
    }
}
