use fastdl_desktop::commands::storage_without_secrets;
use fastdl_desktop::config::AppConfig;

#[test]
fn storage_without_secrets_strips_remote_credentials() {
    let mut config = AppConfig::default();
    config.storage.server_ftp.password = Some("server-ftp-secret".to_string());
    config.storage.server_sftp.password = Some("server-sftp-secret".to_string());
    config.storage.server_sftp.private_key_passphrase = Some("server-key-secret".to_string());
    config.storage.ftp.password = Some("ftp-secret".to_string());
    config.storage.sftp.password = Some("sftp-secret".to_string());
    config.storage.sftp.private_key_passphrase = Some("key-secret".to_string());
    config.storage.sftp.private_key_path = Some("C:/keys/id_rsa".to_string());
    config.storage.sftp.trusted_host_fingerprint = Some("SHA256:test".to_string());

    let storage = storage_without_secrets(config.storage);

    assert_eq!(storage.server_ftp.password, None);
    assert_eq!(storage.server_sftp.password, None);
    assert_eq!(storage.server_sftp.private_key_passphrase, None);
    assert_eq!(storage.ftp.password, None);
    assert_eq!(storage.sftp.password, None);
    assert_eq!(storage.sftp.private_key_passphrase, None);
    assert_eq!(
        storage.sftp.private_key_path,
        Some("C:/keys/id_rsa".to_string())
    );
    assert_eq!(
        storage.sftp.trusted_host_fingerprint,
        Some("SHA256:test".to_string())
    );
}
