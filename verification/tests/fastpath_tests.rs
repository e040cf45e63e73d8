use easyenv::fastpath::{compute_signature, signature_bytes, FileStamp, PathStamp};

fn no_config() -> PathStamp {
    PathStamp { path: "/nonexistent/easyenv/config.toml".to_string(), stamp: None }
}

fn env_file(modified_nanos: u128, len: u64) -> PathStamp {
    PathStamp {
        path: "/home/user/project/.env".to_string(),
        stamp: Some(FileStamp { modified_nanos: Some(modified_nanos), len }),
    }
}

const CWD: &str = "/home/user/project";
const T0: u128 = 1_700_000_000_000_000_000;

#[test]
fn same_inputs_yield_same_signature() {
    let files = vec![env_file(T0, 6)];
    let sig1 = compute_signature(CWD, &files, &no_config());
    let sig2 = compute_signature(CWD, &files, &no_config());
    assert_eq!(sig1, sig2);
}

#[test]
fn different_cwd_yields_different_signature() {
    let sig1 = compute_signature(CWD, &[], &no_config());
    let sig2 = compute_signature("/some/other/dir", &[], &no_config());
    assert_ne!(sig1, sig2);
}

#[test]
fn touching_mtime_without_content_change_invalidates_signature() {
    let sig1 = compute_signature(CWD, &[env_file(T0, 6)], &no_config());
    let sig2 = compute_signature(CWD, &[env_file(T0 + 60_000_000_000, 6)], &no_config());
    assert_ne!(sig1, sig2);
}

#[test]
fn different_file_length_yields_different_signature() {
    let sig1 = compute_signature(CWD, &[env_file(T0, 6)], &no_config());
    let sig2 = compute_signature(CWD, &[env_file(T0, 10)], &no_config());
    assert_ne!(sig1, sig2);
}

#[test]
fn editing_config_file_invalidates_signature_even_with_env_files_unchanged() {
    let files = vec![env_file(T0, 6)];
    let config_missing = PathStamp { path: "/home/user/project/config.toml".to_string(), stamp: None };
    let config_written = PathStamp {
        path: "/home/user/project/config.toml".to_string(),
        stamp: Some(FileStamp { modified_nanos: Some(T0), len: 28 }),
    };
    let sig1 = compute_signature(CWD, &files, &config_missing);
    let sig2 = compute_signature(CWD, &files, &config_written);
    assert_ne!(sig1, sig2);
}

#[test]
fn signature_hashes_paths_then_stamps_little_endian() {
    let files = vec![PathStamp { path: "/e".to_string(), stamp: Some(FileStamp { modified_nanos: None, len: 0x0203 }) }];
    let config = PathStamp { path: "/c".to_string(), stamp: Some(FileStamp { modified_nanos: Some(1), len: 0 }) };
    let bytes = signature_bytes("/d", &files, &config);
    let mut expected: Vec<u8> = b"/d/e".to_vec();
    expected.extend_from_slice(&[3, 2, 0, 0, 0, 0, 0, 0]);
    expected.extend_from_slice(b"/c");
    expected.extend_from_slice(&1u128.to_le_bytes());
    expected.extend_from_slice(&0u64.to_le_bytes());
    assert_eq!(bytes, expected);
    assert_eq!(compute_signature("/d", &files, &config), xxhash_rust::xxh3::xxh3_64(&expected));
}
