use fastdl_desktop::storage::InstallStep::{
    AuditInstalled, Cleanup, Extract, Fail, Finish, InstallFiles, MarkFailed, Prepare,
    PublishFastdl, PublishServer, RecordFailure, RemoveStaging, Succeed, Validate,
};

use fastdl_desktop::audit::audit_log_path;
use fastdl_desktop::config::{AppConfig, CompressedFormat, ServerInstallMode};
use fastdl_desktop::content::{compress_bytes, sha256_hex};
use fastdl_desktop::paths::display_path;
use fastdl_desktop::storage::{
    backup_action, backup_entry, backups_newest_first, check_cleanup_deletion, check_deletion,
    check_destination, check_extraction_inside, check_restore, compressed_relative_path,
    compressed_target, compressed_uploads, expected_hash, extraction_content_type,
    extraction_target, install_busy, install_target, is_child_path, is_manifest_file,
    new_upload_id, now_rfc3339, published_result, remote_rollback_check, rollback_files,
    rollback_start, server_publish_plan, server_rollback_action, sort_newest_first, sort_paths,
    removed_files, rollback_plan, timestamp_text, upload_id_text, validate_internal_root,
    validate_upload_id, BackupAction, BackupCheck, FileCheck,
    BackupEntry, InstallReport, RemoteAction, RemotePublishResult, RollbackReport, StorageError,
    StorageRoots, UploadManifest,
};

fn test_config(server_root: &str) -> AppConfig {
    let mut config = AppConfig::default();
    config.storage.server_root = server_root.to_string();
    config.storage.compressed_formats = vec![CompressedFormat::Gz, CompressedFormat::Bz2];
    config
}

fn test_config_with_fastdl(server_root: &str, fastdl_root: &str) -> AppConfig {
    let mut config = test_config(server_root);
    config.storage.fastdl_root = Some(fastdl_root.to_string());
    config
}

fn refusal(error: StorageError) -> String {
    match error {
        StorageError::Rejected(message) => message,
        other => panic!("expected a refusal, got {other:?}"),
    }
}

fn manifest_for(roots: &StorageRoots, id: &str) -> UploadManifest {
    UploadManifest::started(
        id.to_string(),
        "map",
        "package.zip",
        roots,
        "2026-01-01T00:00:00Z".to_string(),
    )
}

#[test]
fn installs_compresses_writes_manifest_and_rolls_back() {
    let config = test_config_with_fastdl("tmp/server", "tmp/fastdl");
    let roots = StorageRoots::from_config(&config).expect("roots");
    let staged = sort_paths(vec![
        "sound/test.wav".to_string(),
        "maps/test.res".to_string(),
        "maps/test.bsp".to_string(),
    ]);
    assert_eq!(staged, vec!["maps/test.bsp", "maps/test.res", "sound/test.wav"]);
    for relative in &staged {
        check_destination(&config, &roots, relative, false, &vec![false, false]).expect("no conflict");
    }

    let upload_id = new_upload_id();
    assert!(validate_upload_id(&upload_id).is_ok());
    let mut manifest = UploadManifest::started(
        upload_id.clone(),
        "map",
        "package.zip",
        &roots,
        now_rfc3339(),
    );
    assert_eq!(manifest.status, "started");

    let contents: Vec<(&str, &[u8])> = vec![
        ("maps/test.bsp", b"bsp"),
        ("maps/test.res", b"sound/test.wav\n"),
        ("sound/test.wav", b"wav"),
    ];
    for (relative, bytes) in &contents {
        assert_eq!(install_target(&roots, relative), format!("tmp/server/{relative}"));
        manifest.record_installed(display_path(relative), sha256_hex(bytes));
        for format in &config.storage.compressed_formats {
            let relative_copy = compressed_relative_path(relative, *format);
            let copy = compress_bytes(bytes, *format).expect("compressed copy");
            manifest.record_compressed(
                roots.display_path_for_compressed(&relative_copy),
                sha256_hex(&copy),
            );
        }
    }
    assert_eq!(
        compressed_target(&roots, &compressed_relative_path("maps/test.bsp", CompressedFormat::Gz)),
        "tmp/fastdl/maps/test.bsp.gz"
    );
    assert_eq!(
        compressed_target(&roots, &compressed_relative_path("maps/test.bsp", CompressedFormat::Bz2)),
        "tmp/fastdl/maps/test.bsp.bz2"
    );
    assert_eq!(
        roots.manifest_path(&manifest.upload_id),
        format!("tmp/server/.uploads/{}.json", upload_id)
    );
    assert_eq!(audit_log_path(&roots.server), "tmp/server/.fastdl-desktop/logs/audit.tsv");
    manifest.mark_installed(Vec::new(), Vec::new(), now_rfc3339());
    assert_eq!(manifest.status, "installed");
    assert_eq!(sort_newest_first(vec![manifest_for(&roots, "a")]).len(), 1);

    assert!(!rollback_start(&manifest, true).expect("rollback may start"));
    let mut deleted_files = Vec::new();
    for display in rollback_files(&manifest) {
        roots.resolve_display_path(&display).expect("resolved");
        let actual = expected_hash(&manifest, &display);
        if check_deletion(&manifest, &display, true, false, &actual).expect("unmodified") {
            deleted_files.push(display);
        }
    }
    assert!(deleted_files.iter().any(|path| path == "maps/test.bsp"));
    assert!(deleted_files.iter().any(|path| path == "fastdl/maps/test.bsp.gz"));
    assert_eq!(deleted_files.len(), 9);
    manifest.mark_rolled_back(
        Vec::new(),
        RemotePublishResult { ftp: Vec::new(), sftp: Vec::new() },
        now_rfc3339(),
    );
    assert_eq!(manifest.status, "rolled_back");
    assert!(rollback_start(&manifest, false).expect("already rolled back"));
}

#[test]
fn rollback_refuses_modified_installed_file() {
    let config = test_config("tmp/server");
    let roots = StorageRoots::from_config(&config).unwrap();
    let mut manifest = manifest_for(&roots, "1-abc");
    manifest.record_installed("maps/test.bsp".to_string(), sha256_hex(b"bsp"));
    let actual = Some(sha256_hex(b"modified"));

    let error = refusal(check_deletion(&manifest, "maps/test.bsp", true, false, &actual).unwrap_err());

    assert!(error.contains("modified file"));
    assert_eq!(
        error,
        "refusing to delete modified file during rollback: maps/test.bsp"
    );
}

#[test]
fn rollback_requires_remote_protocol_for_published_files() {
    let config = test_config("tmp/server");
    let roots = StorageRoots::from_config(&config).unwrap();
    let mut manifest = manifest_for(&roots, "1-abc");
    manifest.ftp_published_files = vec!["maps/test.bsp.gz".to_string()];

    let error = refusal(remote_rollback_check(&config, &manifest).unwrap_err());

    assert!(error.contains("needs FTP enabled"));

    let mut config = test_config("tmp/server");
    config.storage.ftp.enabled = true;
    manifest.sftp_published_files = vec!["maps/test.bsp.gz".to_string()];
    assert_eq!(
        refusal(remote_rollback_check(&config, &manifest).unwrap_err()),
        "rollback needs SFTP enabled to remove previously published SFTP files"
    );
    config.storage.sftp.enabled = true;
    assert!(remote_rollback_check(&config, &manifest).is_ok());
}

#[test]
fn roots_follow_the_server_root() {
    let config = test_config("");
    assert!(matches!(
        StorageRoots::from_config(&config),
        Err(StorageError::MissingServerRoot)
    ));
    assert_eq!(StorageError::MissingServerRoot.message(), "server root is not configured");
    let roots = StorageRoots::from_config(&test_config("srv/")).unwrap();
    assert_eq!(roots.incoming, "srv/.incoming");
    assert_eq!(roots.backups, "srv/.backups");
    assert_eq!(roots.uploads, "srv/.uploads");
    assert_eq!(roots.lock_path, "srv/.fastdl-upload.lock");
    assert_eq!(roots.compressed_base(), "srv/");
    let roots = StorageRoots::from_config(&test_config_with_fastdl("srv", "web")).unwrap();
    assert_eq!(roots.compressed_base(), "web");
}

#[test]
fn manifest_paths_resolve_under_their_roots() {
    let roots = StorageRoots::from_config(&test_config_with_fastdl("srv", "web")).unwrap();
    assert_eq!(roots.resolve_display_path("maps/a.bsp").unwrap(), "srv/maps/a.bsp");
    assert_eq!(
        roots.resolve_display_path("fastdl/maps/a.bsp.gz").unwrap(),
        "web/maps/a.bsp.gz"
    );
    assert_eq!(
        refusal(roots.resolve_display_path("../etc/passwd").unwrap_err()),
        "unsafe manifest path: ../etc/passwd"
    );
    assert_eq!(
        refusal(roots.resolve_display_path("maps\\a.bsp").unwrap_err()),
        "unsafe manifest path: maps\\a.bsp"
    );
    assert_eq!(
        refusal(roots.resolve_display_path("fastdl//x").unwrap_err()),
        "unsafe manifest path: fastdl//x"
    );
    let roots = StorageRoots::from_config(&test_config("srv")).unwrap();
    assert_eq!(
        refusal(roots.resolve_display_path("fastdl/maps/a.bsp.gz").unwrap_err()),
        "manifest references FastDL root but none is configured: fastdl/maps/a.bsp.gz"
    );
}

#[test]
fn display_paths_of_targets() {
    let roots = StorageRoots::from_config(&test_config_with_fastdl("srv", "web")).unwrap();
    assert_eq!(roots.display_path_for_target("srv/maps/a.bsp").unwrap(), "maps/a.bsp");
    assert_eq!(
        roots.display_path_for_target("web/maps/a.bsp.gz").unwrap(),
        "fastdl/maps/a.bsp.gz"
    );
    assert_eq!(
        refusal(roots.display_path_for_target("other/a.bsp").unwrap_err()),
        "path is outside configured roots"
    );
    assert_eq!(roots.display_path_for_compressed("maps/a.bsp.gz"), "fastdl/maps/a.bsp.gz");
    let plain = StorageRoots::from_config(&test_config("srv")).unwrap();
    assert_eq!(plain.display_path_for_compressed("maps/a.bsp.gz"), "maps/a.bsp.gz");
}

#[test]
fn upload_ids_that_could_escape_are_refused() {
    for bad in ["", "a/b", "a\\b", "a..b", "x.json"] {
        assert_eq!(
            refusal(validate_upload_id(bad).unwrap_err()),
            "invalid upload id"
        );
    }
    assert!(validate_upload_id("1700000000-0123456789abcdef0123456789abcdef").is_ok());
    assert_eq!(upload_id_text(-5, "ab"), "-5-ab");
    assert_eq!(upload_id_text(i64::MIN, "t"), "-9223372036854775808-t");
    assert_eq!(upload_id_text(1700000000, "ff"), "1700000000-ff");
    let id = new_upload_id();
    let (time, token) = id.rsplit_once('-').unwrap();
    assert!(time.parse::<i64>().is_ok());
    assert_eq!(token.len(), 32);
    assert!(token.chars().all(|c| c.is_ascii_digit() || ('a'..='f').contains(&c)));
    assert!(validate_upload_id(&id).is_ok());
    assert_ne!(new_upload_id(), id);
}

#[test]
fn internal_folders_are_refused() {
    assert_eq!(
        refusal(validate_internal_root(".Uploads/x.bsp").unwrap_err()),
        "refusing to install into internal directory: .Uploads"
    );
    assert!(validate_internal_root(".fastdl-desktop").is_err());
    assert!(validate_internal_root("maps/.uploads").is_ok());
}

#[test]
fn destination_conflicts_before_install() {
    let config = test_config_with_fastdl("srv", "web");
    let roots = StorageRoots::from_config(&config).unwrap();
    assert_eq!(
        refusal(check_destination(&config, &roots, "maps/a.bsp", true, &vec![false, false]).unwrap_err()),
        "destination already exists: maps/a.bsp"
    );
    assert_eq!(
        refusal(check_destination(&config, &roots, "maps/a.bsp", false, &vec![false, true]).unwrap_err()),
        "destination already exists: fastdl/maps/a.bsp.bz2"
    );
    assert_eq!(
        refusal(check_destination(&config, &roots, ".incoming/a.bsp", false, &vec![]).unwrap_err()),
        "refusing to install into internal directory: .incoming"
    );
    let mut config = config;
    config.storage.allow_overwrite = true;
    assert!(check_destination(&config, &roots, "maps/a.bsp", true, &vec![true, true]).is_ok());
}

#[test]
fn backups_of_files_in_the_way() {
    let config = test_config("srv");
    let roots = StorageRoots::from_config(&config).unwrap();
    let manifest = manifest_for(&roots, "7-abc");
    assert!(matches!(
        backup_action(&config, &roots, &manifest, "maps/a.bsp", false),
        BackupAction::Keep
    ));
    match backup_action(&config, &roots, &manifest, "maps/a.bsp", true) {
        BackupAction::MoveTo(path) => assert_eq!(path, "srv/.backups/7-abc/maps/a.bsp"),
        other => panic!("unexpected {other:?}"),
    }
    let mut no_backups = test_config("srv");
    no_backups.storage.backup_existing = false;
    assert!(matches!(
        backup_action(&no_backups, &roots, &manifest, "maps/a.bsp", true),
        BackupAction::Remove
    ));
    let entry = backup_entry(&roots, "srv/maps/a.bsp", "srv/.backups/7-abc/maps/a.bsp").unwrap();
    assert_eq!(entry.target, "maps/a.bsp");
    assert_eq!(entry.backup, ".backups/7-abc/maps/a.bsp");
}

#[test]
fn rollback_restores_backups_without_overwriting() {
    assert!(!check_restore("maps/a.bsp", false, false).unwrap());
    assert!(check_restore("maps/a.bsp", false, true).unwrap());
    assert_eq!(
        refusal(check_restore("maps/a.bsp", true, true).unwrap_err()),
        "refusing to overwrite during rollback: maps/a.bsp"
    );
    let roots = StorageRoots::from_config(&test_config("srv")).unwrap();
    let mut manifest = manifest_for(&roots, "1-a");
    manifest.record_backup(BackupEntry { target: "a".to_string(), backup: "b".to_string() });
    manifest.record_backup(BackupEntry { target: "c".to_string(), backup: "d".to_string() });
    let order: Vec<String> = backups_newest_first(&manifest).into_iter().map(|b| b.target).collect();
    assert_eq!(order, vec!["c", "a"]);
}

#[test]
fn rollback_gate_and_order() {
    let roots = StorageRoots::from_config(&test_config("srv")).unwrap();
    let mut manifest = manifest_for(&roots, "1-a");
    manifest.status = "installed".to_string();
    assert_eq!(
        refusal(rollback_start(&manifest, false).unwrap_err()),
        "refusing to roll back an installed upload without force"
    );
    assert!(!rollback_start(&manifest, true).unwrap());
    manifest.status = "failed".to_string();
    assert!(!rollback_start(&manifest, false).unwrap());
    manifest.record_installed("a".to_string(), "1".to_string());
    manifest.record_installed("b".to_string(), "2".to_string());
    manifest.record_compressed("a.gz".to_string(), "3".to_string());
    manifest.record_compressed("b.gz".to_string(), "4".to_string());
    assert_eq!(rollback_files(&manifest), vec!["b.gz", "a.gz", "b", "a"]);
    assert_eq!(expected_hash(&manifest, "b.gz"), Some("4".to_string()));
    assert_eq!(expected_hash(&manifest, "zzz"), None);
    assert!(!check_deletion(&manifest, "a", false, false, &None).unwrap());
    assert_eq!(
        refusal(check_deletion(&manifest, "a", true, true, &None).unwrap_err()),
        "refusing to delete directory during rollback: a"
    );
    assert!(check_deletion(&manifest, "other", true, false, &None).unwrap());
    assert!(check_cleanup_deletion(&manifest, "a", true, false, &Some("1".to_string())));
    assert!(!check_cleanup_deletion(&manifest, "a", true, false, &Some("9".to_string())));
    assert!(!check_cleanup_deletion(&manifest, "a", true, true, &Some("1".to_string())));
    let report = RollbackReport::unchanged("1-a");
    assert_eq!(report.upload_id, "1-a");
    assert!(report.deleted_files.is_empty());
}

#[test]
fn server_files_follow_the_install_mode() {
    let mut config = test_config("srv");
    let roots = StorageRoots::from_config(&config).unwrap();
    let mut manifest = manifest_for(&roots, "1-a");
    assert!(matches!(server_rollback_action(&config, &manifest), Ok(RemoteAction::Nothing)));
    manifest.record_installed("maps/a.bsp".to_string(), "h".to_string());
    manifest.record_server_published(vec!["maps/a.bsp".to_string()]);
    assert_eq!(
        refusal(server_rollback_action(&config, &manifest).unwrap_err()),
        "rollback needs the original FTP/SFTP game server mode to remove previously published server files"
    );
    let plan = server_publish_plan(&config, &roots, &manifest).unwrap();
    assert!(matches!(plan.action, RemoteAction::Nothing));
    assert!(plan.published.is_empty());
    assert_eq!(plan.files[0].local, "srv/maps/a.bsp");

    config.storage.server_install_mode = ServerInstallMode::Ftp;
    config.storage.server_ftp.host = Some("ftp.example".to_string());
    match server_rollback_action(&config, &manifest).unwrap() {
        RemoteAction::Ftp(ftp) => {
            assert!(ftp.enabled);
            assert_eq!(ftp.host, Some("ftp.example".to_string()));
        }
        other => panic!("unexpected {other:?}"),
    }
    let plan = server_publish_plan(&config, &roots, &manifest).unwrap();
    assert!(matches!(plan.action, RemoteAction::Ftp(_)));
    assert_eq!(plan.published, vec!["maps/a.bsp"]);
    config.storage.server_install_mode = ServerInstallMode::Sftp;
    assert!(matches!(
        server_rollback_action(&config, &manifest),
        Ok(RemoteAction::Sftp(s)) if s.enabled
    ));
}

#[test]
fn compressed_copies_are_published_without_the_fastdl_prefix() {
    let mut config = test_config_with_fastdl("srv", "web");
    let roots = StorageRoots::from_config(&config).unwrap();
    let mut manifest = manifest_for(&roots, "1-a");
    manifest.record_compressed("fastdl/maps/a.bsp.gz".to_string(), "h".to_string());
    let files = compressed_uploads(&roots, &manifest).unwrap();
    assert_eq!(files[0].local, "web/maps/a.bsp.gz");
    assert_eq!(files[0].remote, "maps/a.bsp.gz");
    config.storage.ftp.enabled = true;
    let published = published_result(&config, &files);
    assert_eq!(published.ftp, vec!["maps/a.bsp.gz"]);
    assert!(published.sftp.is_empty());
    let report = InstallReport::of(manifest, empty_report(), published);
    assert_eq!(report.upload_id, "1-a");
    assert_eq!(report.compressed_files, vec!["fastdl/maps/a.bsp.gz"]);
    assert_eq!(report.ftp_published_files, vec!["maps/a.bsp.gz"]);
}

fn empty_report() -> fastdl_desktop::validation::ValidationReport {
    fastdl_desktop::validation::ValidationReport {
        content_type: "Map".to_string(),
        file_count: 0,
        total_uncompressed_bytes: 0,
        folders: Vec::new(),
        extensions: Vec::new(),
        largest_files: Vec::new(),
        files: Vec::new(),
        compressed_files: Vec::new(),
        conflicts: Vec::new(),
    }
}

#[test]
fn staged_files_sort_by_path_components() {
    let sorted = sort_paths(vec![
        "a-b".to_string(),
        "a/b".to_string(),
        "B".to_string(),
        "a".to_string(),
    ]);
    assert_eq!(sorted, vec!["B", "a", "a/b", "a-b"]);
}

#[test]
fn manifests_are_listed_newest_first() {
    let roots = StorageRoots::from_config(&test_config("srv")).unwrap();
    let mut first = manifest_for(&roots, "first");
    first.started_at = "2026-01-01T00:00:00Z".to_string();
    let mut second = manifest_for(&roots, "second");
    second.started_at = "2026-03-01T00:00:00Z".to_string();
    let mut third = manifest_for(&roots, "third");
    third.started_at = "2026-02-01T00:00:00Z".to_string();
    let mut tie = manifest_for(&roots, "tie");
    tie.started_at = "2026-01-01T00:00:00Z".to_string();
    let ids: Vec<String> = sort_newest_first(vec![first, second, third, tie])
        .into_iter()
        .map(|m| m.upload_id)
        .collect();
    assert_eq!(ids, vec!["second", "third", "first", "tie"]);
    assert!(is_manifest_file("srv/.uploads/1-a.json"));
    assert!(!is_manifest_file("srv/.uploads/1-a.json.tmp"));
    assert!(!is_manifest_file("srv/.uploads/.json"));
}

#[test]
fn extraction_stays_in_staging() {
    let config = test_config("srv");
    let content_type = extraction_content_type(&config, "map").unwrap();
    assert_eq!(
        refusal(extraction_content_type(&config, "skin").unwrap_err()),
        "unknown content type: skin"
    );
    let (normalized, target) = extraction_target(content_type, "srv/.incoming/1-a", "maps/x.bsp").unwrap();
    assert_eq!(normalized, "maps/x.bsp");
    assert_eq!(target, "srv/.incoming/1-a/maps/x.bsp");
    match extraction_target(content_type, "srv/.incoming/1-a", "../x.bsp") {
        Err(StorageError::Validation(error)) => {
            assert_eq!(error.message(), "../x.bsp: path traversal is not accepted")
        }
        other => panic!("unexpected {other:?}"),
    }
    assert!(is_child_path("st/maps/x", "st", &None, &None));
    assert!(!is_child_path("stx/maps/x", "st", &None, &None));
    assert!(!is_child_path("st/maps/x", "st", &Some("/r/st/maps/x".to_string()), &None));
    assert!(is_child_path(
        "st/maps/x",
        "st",
        &Some("/r/st/maps/x".to_string()),
        &Some("/r/st".to_string())
    ));
    assert!(check_extraction_inside("maps/x", true).is_ok());
    assert_eq!(
        refusal(check_extraction_inside("maps/x", false).unwrap_err()),
        "refusing to extract outside staging: maps/x"
    );
    assert_eq!(
        refusal(install_busy()),
        "another install or rollback is already running"
    );
    assert_eq!(timestamp_text(None), "unknown-time");
    assert_eq!(timestamp_text(Some("t".to_string())), "t");
}

#[test]
fn storage_errors_read_as_their_causes() {
    assert_eq!(StorageError::Io("disk".to_string()).message(), "I/O operation failed: disk");
    assert_eq!(StorageError::Zip("bad".to_string()).message(), "invalid ZIP archive: bad");
    assert_eq!(
        StorageError::Json("eof".to_string()).message(),
        "manifest JSON is invalid: eof"
    );
    assert_eq!(
        StorageError::Ftp(fastdl_desktop::ftp::FtpPublishError::MissingHost).message(),
        "FTP is enabled but host is missing"
    );
}

#[test]
fn validation_preview_names_the_installed_copies() {
    let config = test_config_with_fastdl("srv", "web");
    let (index, _) = fastdl_desktop::validation::start_validation(&config, "map", "p.zip").unwrap();
    let content_type = &config.content_types[index];
    let mut session = fastdl_desktop::validation::ValidationSession::new();
    session.process_entry(content_type, "maps//test.bsp", 3, 3, false).unwrap();
    session.process_entry(content_type, "sound/a.wav", 3, 3, false).unwrap();
    let report = session.finish(&config, content_type, &Vec::new(), &Vec::new()).unwrap();
    let roots = StorageRoots::from_config(&config).unwrap();
    let mut written = Vec::new();
    for file in &report.files {
        for format in &config.storage.compressed_formats {
            written.push(roots.display_path_for_compressed(&compressed_relative_path(&file.path, *format)));
        }
    }
    assert_eq!(report.compressed_files, written);
    assert_eq!(
        written,
        vec![
            "fastdl/maps/test.bsp.gz",
            "fastdl/maps/test.bsp.bz2",
            "fastdl/sound/a.wav.gz",
            "fastdl/sound/a.wav.bz2"
        ]
    );
}

fn steps_of(outcomes: &[bool]) -> Vec<fastdl_desktop::storage::InstallStep> {
    let mut flow = fastdl_desktop::storage::InstallFlow::start();
    let mut steps = vec![flow.step];
    for ok in outcomes {
        if flow.is_done() {
            break;
        }
        flow = flow.next(*ok);
        steps.push(flow.step);
    }
    steps
}

#[test]
fn install_steps_follow_their_outcomes() {
    assert_eq!(
        steps_of(&[true; 9]),
        vec![
            Validate, Prepare, Extract, InstallFiles, PublishServer, PublishFastdl, Finish,
            RemoveStaging, AuditInstalled, Succeed
        ]
    );
    assert_eq!(steps_of(&[false]), vec![Validate, Fail]);
    assert_eq!(steps_of(&[true, false]), vec![Validate, Prepare, Fail]);
    assert_eq!(
        steps_of(&[true, true, true, false, true, true, true]),
        vec![Validate, Prepare, Extract, InstallFiles, RemoveStaging, Cleanup, RecordFailure, Fail]
    );
    assert_eq!(
        steps_of(&[true, true, false, true, false, true, true]),
        vec![Validate, Prepare, Extract, RemoveStaging, Cleanup, MarkFailed, RecordFailure, Fail]
    );
    assert_eq!(
        steps_of(&[true, true, true, true, true, true, true, true, false]),
        vec![
            Validate, Prepare, Extract, InstallFiles, PublishServer, PublishFastdl, Finish,
            RemoveStaging, AuditInstalled, Fail
        ]
    );
}

#[test]
fn now_rfc3339_has_utc_form() {
    let text = now_rfc3339();
    let chars: Vec<char> = text.chars().collect();
    assert!(chars.len() == 20 || (chars.len() >= 22 && chars.len() <= 30 && chars[19] == '.'));
    assert_eq!(chars[4], '-');
    assert_eq!(chars[7], '-');
    assert_eq!(chars[10], 'T');
    assert_eq!(chars[13], ':');
    assert_eq!(chars[16], ':');
    assert_eq!(chars[chars.len() - 1], 'Z');
    for (i, c) in chars.iter().enumerate() {
        if i < 19 && ![4, 7, 10, 13, 16].contains(&i) {
            assert!(c.is_ascii_digit());
        }
        if i > 19 && i + 1 < chars.len() {
            assert!(c.is_ascii_digit());
        }
    }
}

fn file_check(display: &str, present: bool, actual: Option<String>) -> Result<FileCheck, StorageError> {
    Ok(FileCheck {
        display: display.to_string(),
        target: format!("tmp/server/{display}"),
        present,
        is_dir: false,
        actual,
    })
}

fn backup_check(target: &str, target_present: bool, backup_present: bool) -> Result<BackupCheck, StorageError> {
    Ok(BackupCheck {
        target_display: target.to_string(),
        target: format!("tmp/server/{target}"),
        backup: format!("tmp/server/.fastdl-desktop/backups/{target}"),
        target_present,
        backup_present,
    })
}

#[test]
fn rollback_plan_lists_what_goes_and_comes_back() {
    let roots = StorageRoots::from_config(&test_config("tmp/server")).unwrap();
    let mut manifest = manifest_for(&roots, "1-abc");
    manifest.record_installed("maps/a.bsp".to_string(), sha256_hex(b"a"));
    manifest.record_installed("maps/b.bsp".to_string(), sha256_hex(b"b"));
    let plan = rollback_plan(
        &manifest,
        vec![
            file_check("maps/b.bsp", true, Some(sha256_hex(b"b"))),
            file_check("maps/a.bsp", false, None),
        ],
        vec![backup_check("maps/c.bsp", false, true), backup_check("maps/d.bsp", false, false)],
    )
    .expect("every check passes");
    let deleted: Vec<String> = plan.deletions.iter().map(|file| file.display.clone()).collect();
    let restored: Vec<String> = plan.restores.iter().map(|backup| backup.target_display.clone()).collect();
    assert_eq!(deleted, vec!["maps/b.bsp"]);
    assert_eq!(restored, vec!["maps/c.bsp"]);
}

#[test]
fn rollback_plan_stops_at_the_first_failure() {
    let roots = StorageRoots::from_config(&test_config("tmp/server")).unwrap();
    let mut manifest = manifest_for(&roots, "1-abc");
    manifest.record_installed("maps/a.bsp".to_string(), sha256_hex(b"a"));
    let error = rollback_plan(
        &manifest,
        vec![
            file_check("maps/a.bsp", true, Some(sha256_hex(b"changed"))),
            Err(StorageError::Io("unreadable".to_string())),
        ],
        vec![backup_check("maps/c.bsp", true, true)],
    )
    .unwrap_err();
    assert_eq!(refusal(error), "refusing to delete modified file during rollback: maps/a.bsp");

    let error = rollback_plan(
        &manifest,
        vec![Err(StorageError::Io("unreadable".to_string()))],
        Vec::new(),
    )
    .unwrap_err();
    assert!(matches!(error, StorageError::Io(message) if message == "unreadable"));

    let error = rollback_plan(
        &manifest,
        vec![file_check("maps/a.bsp", true, Some(sha256_hex(b"a")))],
        vec![backup_check("maps/c.bsp", true, true)],
    )
    .unwrap_err();
    assert_eq!(refusal(error), "refusing to overwrite during rollback: maps/c.bsp");
}

#[test]
fn removed_remote_files_are_the_ones_found() {
    let attempted = vec!["maps/a.bsp".to_string(), "maps/b.bsp".to_string(), "maps/c.bsp".to_string()];
    assert_eq!(removed_files(&attempted, &vec![true, false, true]), vec!["maps/a.bsp", "maps/c.bsp"]);
    assert!(removed_files(&attempted, &vec![false, false, false]).is_empty());
}
