use easyenv::config::Config;
use easyenv::discover::env_file_candidates;

/// The candidates that exist, in order, standing in for the filesystem.
fn existing(candidates: Vec<String>, present: &[&str]) -> Vec<String> {
    candidates.into_iter().filter(|c| present.contains(&c.as_str())).collect()
}

#[test]
fn discovers_root_first_order() {
    let present = ["/work/parent/.env", "/work/parent/child/.env"];
    let files = existing(env_file_candidates("/work/parent/child", &Config::unrestricted()), &present);
    assert_eq!(files.len(), 2);
    assert_eq!(files[0], "/work/parent/.env");
    assert_eq!(files[1], "/work/parent/child/.env");
}

#[test]
fn no_env_files_yields_empty() {
    let files = existing(env_file_candidates("/work/a/b/c", &Config::unrestricted()), &[]);
    assert!(files.is_empty());
}

#[test]
fn skips_directories_without_env_between_ancestors() {
    let files = existing(env_file_candidates("/work/a/b/c", &Config::unrestricted()), &["/work/a/.env"]);
    assert_eq!(files, vec!["/work/a/.env".to_string()]);
}

#[test]
fn vendored_component_is_skipped_but_walk_continues_past_it() {
    let present = ["/work/proj/.env", "/work/proj/node_modules/some-pkg/.env"];
    let files = existing(env_file_candidates("/work/proj/node_modules/some-pkg", &Config::unrestricted()), &present);
    assert_eq!(files, vec!["/work/proj/.env".to_string()]);
}

#[test]
fn configured_skip_extra_directory_is_skipped() {
    let config = Config::unrestricted_with_skip(&["/work/skip-me".to_string()]);
    let files = existing(env_file_candidates("/work/skip-me", &config), &["/work/skip-me/.env"]);
    assert!(files.is_empty());
}

#[test]
fn compiled_in_defaults_skip_tmp_itself() {
    let files = existing(env_file_candidates("/tmp/.tmpAbC123", &Config::defaults(Some("/home/user"))), &["/tmp/.tmpAbC123/.env"]);
    assert!(files.is_empty());
}

#[test]
fn candidates_cover_every_ancestor_root_first() {
    let c = env_file_candidates("/a/b", &Config::unrestricted());
    assert_eq!(c, vec!["/.env".to_string(), "/a/.env".to_string(), "/a/b/.env".to_string()]);
    let d = env_file_candidates("/a/b", &Config::defaults(Some("/home/user")));
    assert_eq!(d, vec!["/a/.env".to_string(), "/a/b/.env".to_string()]);
}
