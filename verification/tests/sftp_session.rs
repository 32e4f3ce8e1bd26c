use fastdl_desktop::config::SftpConfig;
use fastdl_desktop::sftp::{
    auth_method, connect_plan, delete_files, handshake_error, host_fingerprint, inspect_host,
    publish_files, remote_parent_folders, supported_algorithm_summary, supported_algorithms_text,
    test_connection, verify_trusted_host, HostKeyKind, SftpAuth, SftpError,
};
use fastdl_desktop::storage::UploadFile;

fn config() -> SftpConfig {
    let mut config = SftpConfig::default();
    config.enabled = true;
    config.host = Some("sftp.example".to_string());
    config.username = Some("user".to_string());
    config.remote_fastdl_root = Some("/fastdl/".to_string());
    config
}

#[test]
fn fingerprints_are_sha256_in_unpadded_base64() {
    let fingerprint = host_fingerprint("sftp.example", 22, HostKeyKind::Ed25519, b"abc");
    assert_eq!(fingerprint.sha256, "SHA256:YWJj");
    assert_eq!(fingerprint.host_key_type, "ssh-ed25519");
    assert_eq!(fingerprint.host, "sftp.example");
    assert_eq!(fingerprint.port, 22);
    let inspected = inspect_host("h", 2222, Some(HostKeyKind::Ecdsa256), Some(b"ab".to_vec())).unwrap();
    assert_eq!(inspected.sha256, "SHA256:YWI");
    assert_eq!(inspected.host_key_type, "ecdsa-sha2-nistp256");
    assert!(matches!(inspect_host("h", 22, None, Some(vec![1])), Err(SftpError::MissingHostKey)));
    assert!(matches!(
        inspect_host("h", 22, Some(HostKeyKind::Rsa), None),
        Err(SftpError::MissingHostKey)
    ));
}

#[test]
fn only_the_trusted_host_is_accepted() {
    let mut config = config();
    let error = verify_trusted_host(&config, "sftp.example", 22, "SHA256:abc").unwrap_err();
    assert_eq!(
        error.message(),
        "SFTP host is not trusted yet: sftp.example:22 SHA256:abc. Use Test SFTP to review and trust this host before publishing."
    );
    config.trusted_host_fingerprint = Some("  SHA256:abc \n".to_string());
    assert!(verify_trusted_host(&config, "sftp.example", 22, "SHA256:abc").is_ok());
    let error = verify_trusted_host(&config, "sftp.example", 22, "SHA256:xyz").unwrap_err();
    assert_eq!(
        error.message(),
        "SFTP host fingerprint changed for sftp.example:22. Expected   SHA256:abc \n, got SHA256:xyz. This may indicate a server change or a man-in-the-middle attack."
    );
}

#[test]
fn connections_need_a_username_then_a_host() {
    let mut config = config();
    let plan = connect_plan(&config).unwrap();
    assert_eq!(plan.username, "user");
    assert_eq!(plan.host, "sftp.example");
    assert_eq!(plan.port, 22);
    assert_eq!(plan.remote_root, Some("/fastdl/".to_string()));
    let (_, path) = test_connection(&config).unwrap();
    assert_eq!(path, "/fastdl/");
    config.remote_fastdl_root = Some(String::new());
    let (plan, path) = test_connection(&config).unwrap();
    assert_eq!(plan.remote_root, None);
    assert_eq!(path, ".");
    config.host = None;
    assert!(matches!(connect_plan(&config), Err(SftpError::MissingHost)));
    config.username = None;
    assert!(matches!(connect_plan(&config), Err(SftpError::MissingUsername)));
}

#[test]
fn a_private_key_wins_over_a_password() {
    let mut config = config();
    assert!(matches!(auth_method(&config), Err(SftpError::MissingAuthentication)));
    config.password = Some("pw".to_string());
    assert!(matches!(auth_method(&config), Ok(SftpAuth::Password(p)) if p == "pw"));
    config.private_key_path = Some("/keys/id".to_string());
    config.private_key_passphrase = Some("pp".to_string());
    match auth_method(&config).unwrap() {
        SftpAuth::PublicKey { key_path, passphrase } => {
            assert_eq!(key_path, "/keys/id");
            assert_eq!(passphrase, Some("pp".to_string()));
        }
        other => panic!("unexpected {other:?}"),
    }
}

#[test]
fn handshake_failures_explain_key_exchange_problems() {
    let error = handshake_error("Unable to exchange encryption key", "E1", "kex=[a]");
    match error {
        SftpError::Handshake { message } => {
            assert!(message.starts_with("SSH handshake failed: no compatible SFTP encryption/key-exchange algorithm was negotiated."));
            assert!(message.ends_with("Raw error: E1. FastDL Desktop supports: kex=[a]"));
        }
        other => panic!("unexpected {other:?}"),
    }
    match handshake_error("timeout", "E2", "s") {
        SftpError::Handshake { message } => {
            assert_eq!(message, "SSH handshake failed: E2. FastDL Desktop supports: s")
        }
        other => panic!("unexpected {other:?}"),
    }
    assert_eq!(
        supported_algorithms_text(&Ok(vec!["a".to_string(), "b".to_string()])),
        "a, b"
    );
    assert_eq!(supported_algorithms_text(&Ok(Vec::new())), "none reported");
    assert_eq!(
        supported_algorithms_text(&Err("x".to_string())),
        "could not read supported algorithms: x"
    );
    assert_eq!(
        supported_algorithm_summary("k", "h", "c", "s"),
        "kex=[k]; host_key=[h]; cipher_client_to_server=[c]; cipher_server_to_client=[s]"
    );
}

#[test]
fn transfers_create_parent_folders_in_order() {
    assert_eq!(
        remote_parent_folders("/fastdl/maps/test.bsp.gz"),
        vec!["/fastdl", "/fastdl/maps"]
    );
    assert_eq!(
        remote_parent_folders("fastdl/maps/test.bsp.gz"),
        vec!["fastdl", "fastdl/maps"]
    );
    assert!(remote_parent_folders("test.bsp.gz").is_empty());
    let uploads = publish_files(
        "/fastdl/",
        &vec![UploadFile { local: "web/maps/a.gz".to_string(), remote: "maps/a.gz".to_string() }],
    );
    assert_eq!(uploads[0].local, "web/maps/a.gz");
    assert_eq!(uploads[0].remote, "/fastdl/maps/a.gz");
    assert_eq!(uploads[0].folders, vec!["/fastdl", "/fastdl/maps"]);
    let deletions = delete_files("root", &vec!["/maps/a.gz".to_string()]);
    assert_eq!(deletions[0].relative, "/maps/a.gz");
    assert_eq!(deletions[0].remote, "root/maps/a.gz");
}
