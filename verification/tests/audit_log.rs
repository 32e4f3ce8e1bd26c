use fastdl_desktop::audit::{audit_dir, audit_line, audit_log_path, audit_record, clean_audit_detail};
use fastdl_desktop::commands::{
    apply_secret, audit_entries, logs_directory, manifests_directory, parse_audit_line,
    secret_name, secret_slots, stored_secret, storage_without_secrets, SecretSlot,
};
use fastdl_desktop::config::AppConfig;

#[test]
fn audit_lines_have_four_tab_separated_fields() {
    assert_eq!(
        audit_line("2026-01-01T00:00:00Z", "install", "failed", "1-a: bad\tthing\r\nhere"),
        "2026-01-01T00:00:00Z\tinstall\tfailed\t1-a: bad thing  here\n"
    );
    assert_eq!(clean_audit_detail("a\tb\nc\rd"), "a b c d");
    assert_eq!(audit_dir("srv"), "srv/.fastdl-desktop/logs");
    assert_eq!(audit_log_path("srv"), "srv/.fastdl-desktop/logs/audit.tsv");
    let record = audit_record("rollback", "rolled_back", "1-a");
    assert!(record.ends_with("\trollback\trolled_back\t1-a\n"));
}

#[test]
fn audit_lines_read_back_as_written() {
    let line = audit_line("2026-01-01T00:00:00Z", "install", "installed", "id\twith tab");
    let entries = audit_entries(&line);
    assert_eq!(entries.len(), 1);
    assert_eq!(entries[0].timestamp, "2026-01-01T00:00:00Z");
    assert_eq!(entries[0].action, "install");
    assert_eq!(entries[0].status, "installed");
    assert_eq!(entries[0].detail, "id with tab");
}

#[test]
fn audit_lines_are_split_into_four_fields() {
    let entry = parse_audit_line("t\ta\ts\td1\td2").unwrap();
    assert_eq!(entry.timestamp, "t");
    assert_eq!(entry.action, "a");
    assert_eq!(entry.status, "s");
    assert_eq!(entry.detail, "d1\td2");
    let entry = parse_audit_line("t\ta\ts").unwrap();
    assert_eq!(entry.detail, "");
    assert!(parse_audit_line("t\ta").is_none());
    assert!(parse_audit_line("").is_none());
}

#[test]
fn audit_entries_are_newest_first_and_at_most_200() {
    let entries = audit_entries("1\ta\ts\td\nbroken\n2\ta\ts\td\r\n");
    let stamps: Vec<&str> = entries.iter().map(|e| e.timestamp.as_str()).collect();
    assert_eq!(stamps, vec!["2", "1"]);
    assert_eq!(entries[0].detail, "d");
    let mut text = String::new();
    for i in 0..250 {
        text.push_str(&format!("{i}\tinstall\tstarted\tx\n"));
    }
    let entries = audit_entries(&text);
    assert_eq!(entries.len(), 200);
    assert_eq!(entries[0].timestamp, "249");
    assert_eq!(entries[199].timestamp, "50");
    assert!(audit_entries("").is_empty());
}

#[test]
fn log_folders_need_a_server_root() {
    let mut config = AppConfig::default();
    assert_eq!(
        logs_directory(&config).unwrap_err(),
        "Server root is required before opening logs"
    );
    assert_eq!(
        manifests_directory(&config).unwrap_err(),
        "Server root is required before reading manifests"
    );
    config.storage.server_root = "srv".to_string();
    assert_eq!(logs_directory(&config).unwrap(), "srv/.fastdl-desktop/logs");
    assert_eq!(manifests_directory(&config).unwrap(), "srv/.uploads");
}

#[test]
fn stored_secrets_restore_the_saved_settings() {
    let mut config = AppConfig::default();
    config.storage.server_ftp.password = Some("p1".to_string());
    config.storage.server_sftp.private_key_passphrase = Some("p2".to_string());
    config.storage.sftp.password = Some("p3".to_string());
    config.storage.ftp.host = Some("ftp.example".to_string());
    let slots = secret_slots();
    let names: Vec<&str> = slots.iter().map(|s| secret_name(*s)).collect();
    assert_eq!(
        names,
        vec![
            "server-ftp-password",
            "server-sftp-password",
            "server-sftp-key-passphrase",
            "ftp-password",
            "sftp-password",
            "sftp-key-passphrase"
        ]
    );
    let stored: Vec<Option<String>> = slots.iter().map(|s| stored_secret(&config, *s)).collect();
    let mut loaded = AppConfig::default();
    loaded.storage = storage_without_secrets(config.storage.clone());
    assert_eq!(loaded.storage.server_ftp.password, None);
    assert_eq!(loaded.storage.ftp.host, Some("ftp.example".to_string()));
    for (slot, value) in slots.iter().zip(stored) {
        apply_secret(&mut loaded, *slot, value);
    }
    assert_eq!(loaded.storage.server_ftp.password, Some("p1".to_string()));
    assert_eq!(loaded.storage.server_sftp.password, None);
    assert_eq!(
        loaded.storage.server_sftp.private_key_passphrase,
        Some("p2".to_string())
    );
    assert_eq!(loaded.storage.sftp.password, Some("p3".to_string()));
    assert_eq!(stored_secret(&loaded, SecretSlot::FtpPassword), None);
}

#[test]
fn tab_joined_lines_read_back_as_their_fields() {
    let line = format!("{}\t{}\t{}\t{}", "2026-01-01T00:00:00Z", "install", "started", "id\twith tab");
    let entry = parse_audit_line(&line).unwrap();
    assert_eq!(entry.timestamp, "2026-01-01T00:00:00Z");
    assert_eq!(entry.action, "install");
    assert_eq!(entry.status, "started");
    assert_eq!(entry.detail, "id\twith tab");
    assert_eq!(parse_audit_line("a\tb\tc").unwrap().detail, "");
    assert!(parse_audit_line("a\tb").is_none());
}
