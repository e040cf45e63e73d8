use easyenv::config::{
    expand_tilde, has_vendored_component, load_config, load_config_from, resolve_config_path, Config, ConfigFile,
    RawConfig, RawDirsSection, RawEnvSection,
};

const HOME: &str = "/home/user";

fn defaults() -> Config {
    Config::defaults(Some(HOME))
}

fn raw(deny_extra: &[&str], allow: &[&str], skip_extra: &[&str], unskip: &[&str]) -> RawConfig {
    let own = |xs: &[&str]| xs.iter().map(|s| s.to_string()).collect::<Vec<String>>();
    RawConfig {
        env: RawEnvSection { deny_extra: own(deny_extra), allow: own(allow), extra: Vec::new() },
        dirs: RawDirsSection { skip_extra: own(skip_extra), unskip: own(unskip), extra: Vec::new() },
        extra: Vec::new(),
    }
}

#[test]
fn permits_common_legitimate_names() {
    let c = defaults();
    for key in [
        "MY_PATH",
        "PATHOLOGY",
        "LDAP_URL",
        "HOMEBREW_PREFIX",
        "NODE_ENV",
        "GIT_AUTHOR_NAME",
        "GIT_AUTHOR_EMAIL",
        "GIT_COMMITTER_NAME",
        "GIT_COMMITTER_EMAIL",
        "PYTHONUNBUFFERED",
        "PYTHONDONTWRITEBYTECODE",
        "AWS_REGION",
        "AWS_PROFILE",
        "GOOGLE_APPLICATION_CREDENTIALS",
        "GOOGLE_CLOUD_PROJECT",
        "DATABASE_URL",
    ] {
        assert!(!c.is_denied_key(key), "{key} should be permitted");
    }
}

#[test]
fn denies_known_dangerous_exact_names() {
    let c = defaults();
    for key in ["PROMPT_COMMAND", "PS1", "BASH_ENV", "PATH", "IFS", "AWS_ENDPOINT_URL"] {
        assert!(c.is_denied_key(key), "{key} should be denied");
    }
}

#[test]
fn denies_by_anchored_prefix_not_substring() {
    let c = defaults();
    assert!(c.is_denied_key("LD_PRELOAD"));
    assert!(c.is_denied_key("DYLD_INSERT_LIBRARIES"));
    assert!(c.is_denied_key("EASYENV_STATE"));
    assert!(c.is_denied_key("EASYENV_ANYTHING"));
    assert!(c.is_denied_key("PERL5OPT"));
    assert!(!c.is_denied_key("MY_LD_THING"));
    assert!(!c.is_denied_key("NOT_EASYENV_RELATED"));
}

#[test]
fn case_insensitive_matches() {
    let c = defaults();
    assert!(c.is_denied_key("http_proxy"));
    assert!(c.is_denied_key("HTTP_PROXY"));
    assert!(c.is_denied_key("npm_config_registry"));
    assert!(c.is_denied_key("NPM_CONFIG_REGISTRY"));
    assert!(!c.is_denied_key("Path"));
    assert!(!c.is_denied_key("path"));
}

#[test]
fn config_round_trip_allow_and_deny_extra() {
    let file = ConfigFile::Parsed(raw(&["MY_INTERNAL_THING", "COMPANY_*"], &["PATH"], &[], &[]));
    let result = load_config_from("config.toml", file, Some(HOME));
    assert!(result.parse_error.is_none());
    assert!(!result.config.is_denied_key("PATH"), "allow should permit PATH");
    assert!(result.config.is_denied_key("MY_INTERNAL_THING"));
    assert!(result.config.is_denied_key("COMPANY_SECRET"));
    assert!(!result.config.is_denied_key("COMPANYFOO"));
}

#[test]
fn config_round_trip_skip_extra_and_unskip() {
    let file = ConfigFile::Parsed(raw(&[], &[], &["/custom/skip"], &["~/Downloads"]));
    let result = load_config_from("config.toml", file, Some(HOME));
    assert!(result.parse_error.is_none());
    assert!(result.config.is_skipped_dir("/custom/skip/sub"));
    assert!(!result.config.is_skipped_dir(&expand_tilde("~/Downloads", Some(HOME))));
}

#[test]
fn missing_config_file_yields_defaults_no_error() {
    let result = load_config_from("/nonexistent/easyenv/config.toml", ConfigFile::Unreadable, Some(HOME));
    assert!(result.parse_error.is_none());
    assert!(result.config.is_denied_key("PROMPT_COMMAND"));
}

#[test]
fn malformed_config_fails_closed() {
    let file = ConfigFile::Malformed("expected `]`, found eof".to_string());
    let result = load_config_from("config.toml", file, Some(HOME));
    assert!(result.parse_error.is_some());
    assert!(result.config.is_denied_key("PROMPT_COMMAND"));
}

#[test]
fn unknown_keys_warn_not_error() {
    let mut r = raw(&["FOO"], &[], &[], &[]);
    r.extra.push("future_top_level_key".to_string());
    r.env.extra.push("future_env_key".to_string());
    let result = load_config_from("config.toml", ConfigFile::Parsed(r), Some(HOME));
    assert!(result.parse_error.is_none());
    assert!(!result.warnings.is_empty());
    assert!(result.config.is_denied_key("FOO"));
}

#[test]
fn unknown_key_warnings_name_each_key_and_the_file() {
    let mut r = raw(&[], &[], &[], &[]);
    r.extra.push("future_top_level_key".to_string());
    r.env.extra.push("future_env_key".to_string());
    r.dirs.extra.push("future_dirs_key".to_string());
    let result = load_config_from("/cfg/config.toml", ConfigFile::Parsed(r), Some(HOME));
    assert_eq!(
        result.warnings,
        vec![
            "easyenv: warning: unknown config key \"future_top_level_key\" in /cfg/config.toml".to_string(),
            "easyenv: warning: unknown config key \"env.future_env_key\" in /cfg/config.toml".to_string(),
            "easyenv: warning: unknown config key \"dirs.future_dirs_key\" in /cfg/config.toml".to_string(),
        ]
    );
}

#[test]
fn vendored_components_are_anchored_to_path_segments() {
    assert!(has_vendored_component("/a/node_modules/b"));
    assert!(has_vendored_component("/a/.venv/b"));
    assert!(has_vendored_component("/a/target/b"));
    assert!(!has_vendored_component("/a/my-vendor-tools/b"));
    assert!(!has_vendored_component("/a/targeting/b"));
}

#[test]
fn compiled_skip_dirs_cover_documented_defaults() {
    let c = defaults();
    assert!(c.is_skipped_dir("/tmp/x"));
    assert!(c.is_skipped_dir("/var/tmp/x"));
    assert!(c.is_skipped_dir("/private/tmp/x"));
    assert!(c.is_skipped_dir("/"));
    assert!(c.is_skipped_dir("/etc"));
    assert!(c.is_skipped_dir("/mnt/x"));
    assert!(!c.is_skipped_dir("/home/user/project"));
}

#[test]
fn home_downloads_and_desktop_are_skipped_but_not_home_itself() {
    let c = defaults();
    assert!(c.is_skipped_dir("/home/user/Downloads/archive"));
    assert!(c.is_skipped_dir("/home/user/Desktop"));
    assert!(!c.is_skipped_dir("/home/user"));
    assert!(!c.is_skipped_dir("/home/user/Downloadsish"));
}

#[test]
fn unskip_wins_over_compiled_skip_list() {
    let file = ConfigFile::Parsed(raw(&[], &[], &[], &["/tmp/allowed"]));
    let result = load_config_from("config.toml", file, Some(HOME));
    assert!(!result.config.is_skipped_dir("/tmp/allowed/project"));
    assert!(result.config.is_skipped_dir("/tmp/other"));
}

#[test]
fn allow_wins_over_deny_extra() {
    let file = ConfigFile::Parsed(raw(&["COMPANY_*"], &["COMPANY_NAME"], &[], &[]));
    let result = load_config_from("config.toml", file, Some(HOME));
    assert!(!result.config.is_denied_key("COMPANY_NAME"));
    assert!(result.config.is_denied_key("COMPANY_TOKEN"));
}

#[test]
fn unrestricted_config_denies_and_skips_nothing_of_its_own() {
    let c = Config::unrestricted();
    assert!(!c.is_skipped_dir("/tmp/x"));
    assert!(c.is_denied_key("PATH"));
    let c = Config::unrestricted_with_skip(&["/srv/skip".to_string()]);
    assert!(c.is_skipped_dir("/srv/skip/inner"));
    assert!(!c.is_skipped_dir("/tmp/x"));
}

#[test]
fn tilde_expands_against_home_only_when_known() {
    assert_eq!(expand_tilde("~", Some(HOME)), "/home/user");
    assert_eq!(expand_tilde("~/Sync", Some(HOME)), "/home/user/Sync");
    assert_eq!(expand_tilde("~/Sync", None), "~/Sync");
    assert_eq!(expand_tilde("/abs/~", Some(HOME)), "/abs/~");
}

#[test]
fn config_path_prefers_xdg_config_home() {
    assert_eq!(resolve_config_path(Some("/xdg"), Some(HOME)), "/xdg/easyenv/config.toml");
    assert_eq!(resolve_config_path(None, Some(HOME)), "/home/user/.config/easyenv/config.toml");
    assert_eq!(resolve_config_path(None, None), ".config/easyenv/config.toml");
    let result = load_config(None, Some(HOME), ConfigFile::Unreadable);
    assert_eq!(result.path, "/home/user/.config/easyenv/config.toml");
}

#[test]
fn key_whose_prefix_bytes_cut_a_character_is_simply_not_denied() {
    let c = defaults();
    // 10 ASCII bytes, then a two-byte character straddling byte 11.
    assert!(!c.is_denied_key("NPM_CONFIG\u{e9}"));
    assert!(!easyenv::config::is_denied_by_compiled_defaults("NPM_CONFIG\u{e9}"));
    assert!(c.is_denied_key("NPM_CONFIG_\u{e9}"));
}

#[test]
fn macos_tmp_canonicalizes_to_private() {
    // On macOS `/tmp` canonicalizes to `/private/tmp`; that form is skipped too.
    let c = defaults();
    let canonical = "/private/tmp";
    assert!(c.is_skipped_dir(&format!("{canonical}/x")));
}
