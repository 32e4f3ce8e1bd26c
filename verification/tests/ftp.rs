use fastdl_desktop::config::FtpConfig;
use fastdl_desktop::ftp::{
    delete_files, is_file_unavailable, normalize_remote_path, publish_files, remote_dir_parts,
    split_remote_file, test_connection, FtpPublishError,
};

fn full_config() -> FtpConfig {
    let mut config = FtpConfig::default();
    config.enabled = true;
    config.host = Some("ftp.example".to_string());
    config.username = Some("user".to_string());
    config.password = Some("pass".to_string());
    config.remote_fastdl_root = Some("/fastdl".to_string());
    config
}

#[test]
fn connection_tests_need_host_username_and_password() {
    let mut config = full_config();
    let (login, dir) = test_connection(&config).unwrap();
    assert_eq!(login.host, "ftp.example");
    assert_eq!(login.port, 21);
    assert_eq!(login.username, "user");
    assert_eq!(login.password, "pass");
    assert_eq!(dir, Some("/fastdl".to_string()));
    config.remote_fastdl_root = Some(String::new());
    assert_eq!(test_connection(&config).unwrap().1, None);
    config.password = None;
    assert!(matches!(test_connection(&config), Err(FtpPublishError::MissingPassword)));
    config.username = None;
    assert!(matches!(test_connection(&config), Err(FtpPublishError::MissingUsername)));
    config.host = None;
    assert!(matches!(test_connection(&config), Err(FtpPublishError::MissingHost)));
    assert_eq!(
        FtpPublishError::MissingHost.message(),
        "FTP is enabled but host is missing"
    );
}

#[test]
fn transfers_happen_only_when_enabled_and_needed() {
    let mut config = full_config();
    assert!(publish_files(&config, 0).unwrap().is_none());
    assert!(publish_files(&config, 2).unwrap().is_some());
    config.remote_fastdl_root = None;
    assert!(matches!(publish_files(&config, 2), Err(FtpPublishError::MissingRemoteRoot)));
    config.host = None;
    assert!(matches!(publish_files(&config, 2), Err(FtpPublishError::MissingHost)));
    assert!(matches!(delete_files(&config, 2), Err(FtpPublishError::MissingRemoteRoot)));
    config.enabled = false;
    assert!(delete_files(&config, 2).unwrap().is_none());
}

#[test]
fn remote_paths_use_forward_slashes() {
    assert_eq!(normalize_remote_path("maps\\test.bsp.gz"), "maps/test.bsp.gz");
    assert_eq!(
        split_remote_file("maps/sub/test.bsp.gz"),
        Some(("maps/sub".to_string(), "test.bsp.gz".to_string()))
    );
    assert_eq!(split_remote_file("test.bsp.gz"), None);
    let (absolute, parts) = remote_dir_parts("/fastdl//maps/");
    assert!(absolute);
    assert_eq!(parts, vec!["fastdl", "maps"]);
    assert!(is_file_unavailable(550));
    assert!(!is_file_unavailable(530));
}
