use fastdl_desktop::config::{AppConfig, CompressedFormat};
use fastdl_desktop::validation::{
    archive_kind, normalize_zip_path, start_validation, ArchiveKind, ValidationError,
    ValidationReport, ValidationSession,
};

fn test_config(server_root: &str) -> AppConfig {
    let mut config = AppConfig::default();
    config.storage.server_root = server_root.to_string();
    config.storage.compressed_formats = vec![CompressedFormat::Gz, CompressedFormat::Bz2];
    config
}

fn validate(
    config: &AppConfig,
    package: &str,
    content_type: &str,
    entries: &[(&str, &[u8])],
    server_existing: &[&str],
) -> Result<ValidationReport, ValidationError> {
    let (index, _kind) = start_validation(config, content_type, package)?;
    let content_type = &config.content_types[index];
    let mut session = ValidationSession::new();
    for (name, content) in entries {
        let size = content.len() as u64;
        let wants_text = session.process_entry(content_type, name, size, size, false)?;
        if wants_text {
            session.record_res_content(String::from_utf8(content.to_vec()).unwrap());
        }
    }
    let existing: Vec<String> = server_existing.iter().map(|s| s.to_string()).collect();
    session.finish(config, content_type, &existing, &Vec::new())
}

fn error_text(result: Result<ValidationReport, ValidationError>) -> String {
    match result {
        Ok(_) => panic!("validation should fail"),
        Err(error) => error.message(),
    }
}

#[test]
fn validates_safe_map_package() {
    let config = test_config("server");
    let report = validate(
        &config,
        "package.zip",
        "map",
        &[
            ("maps/test.bsp", b"bsp"),
            ("maps/test.res", b"sound/test/ambience.wav\n"),
            ("sound/test/ambience.wav", b"wav"),
        ],
        &[],
    )
    .expect("valid package");

    assert_eq!(report.file_count, 3);
    assert!(report
        .compressed_files
        .iter()
        .any(|path| path == "maps/test.bsp.gz"));
    assert!(report
        .compressed_files
        .iter()
        .any(|path| path == "maps/test.bsp.bz2"));
}

#[test]
fn validates_and_installs_tar_gz_map_package() {
    let config = test_config("server");
    assert_eq!(archive_kind("package.tar.gz").unwrap(), ArchiveKind::TarGz);
    let report = validate(
        &config,
        "package.tar.gz",
        "map",
        &[
            ("maps/test.bsp", b"bsp"),
            ("maps/test.res", b"sound/test.wav\n"),
            ("sound/test.wav", b"wav"),
        ],
        &[],
    )
    .expect("valid tar.gz package");
    assert_eq!(report.file_count, 3);
    let roots = fastdl_desktop::storage::StorageRoots::from_config(&config).unwrap();
    assert_eq!(
        fastdl_desktop::storage::install_target(&roots, "maps/test.bsp"),
        "server/maps/test.bsp"
    );
}

#[test]
fn rejects_path_traversal_backslash_drive_and_uppercase() {
    let cases = [
        ("../maps/test.bsp", "path traversal"),
        ("maps\\test.bsp", "folder separator"),
        ("C:/maps/test.bsp", "drive paths"),
        ("Maps/test.bsp", "lowercase"),
    ];

    for (entry, expected) in cases {
        let config = test_config("server");
        let error = error_text(validate(&config, "package.zip", "map", &[(entry, b"bad")], &[]));
        assert!(
            error.contains(expected),
            "expected {expected:?} in error for {entry:?}, got {error:?}"
        );
    }
}

#[test]
fn rejects_case_collision() {
    let mut config = test_config("server");
    config.content_types[0].require_lowercase_paths = false;
    let error = error_text(validate(
        &config,
        "package.zip",
        "map",
        &[("maps/test.bsp", b"one"), ("maps/TEST.bsp", b"two")],
        &[],
    ));

    assert!(error.contains("case collision"));
}

#[test]
fn rejects_forbidden_extension_and_folder() {
    let config = test_config("server");
    let error = error_text(validate(&config, "package.zip", "map", &[("maps/test.exe", b"bad")], &[]));
    assert!(error.contains("extension .exe is not allowed"));

    let error = error_text(validate(
        &config,
        "bad-folder.zip",
        "map",
        &[("scripts/test.bsp", b"bad")],
        &[],
    ));
    assert!(error.contains("folder/extension is not allowed"));
}

#[test]
fn validates_res_resources_against_zip_and_server_root() {
    let config = test_config("server");
    validate(
        &config,
        "package.zip",
        "map",
        &[
            ("maps/test.bsp", b"bsp"),
            ("maps/test.res", b"sound/existing.wav\nsound/inzip.wav\n"),
            ("sound/inzip.wav", b"zip"),
        ],
        &["sound/existing.wav"],
    )
    .expect("res should resolve");
}

#[test]
fn rejects_missing_res_resource() {
    let config = test_config("server");
    let error = error_text(validate(
        &config,
        "package.zip",
        "map",
        &[("maps/test.bsp", b"bsp"), ("maps/test.res", b"sound/missing.wav\n")],
        &[],
    ));

    assert!(error.contains("listed resource is missing"));
}

#[test]
fn unknown_content_type_and_missing_server_root_are_refused() {
    let config = test_config("server");
    match start_validation(&config, "skin", "package.zip") {
        Err(ValidationError::UnknownContentType(id)) => assert_eq!(id, "skin"),
        other => panic!("unexpected {other:?}"),
    }
    let config = test_config("");
    assert!(matches!(
        start_validation(&config, "map", "package.zip"),
        Err(ValidationError::MissingServerRoot)
    ));
    let config = test_config("server");
    let error = start_validation(&config, "map", "package.rar").unwrap_err().message();
    assert_eq!(
        error,
        "unsupported archive format; use .zip, .tar, .tar.gz, .tgz, .tar.bz2, or .tbz2"
    );
}

#[test]
fn archive_kinds_follow_the_file_name() {
    assert_eq!(archive_kind("PACK.ZIP").unwrap(), ArchiveKind::Zip);
    assert_eq!(archive_kind("a.tar").unwrap(), ArchiveKind::Tar);
    assert_eq!(archive_kind("a.tgz").unwrap(), ArchiveKind::TarGz);
    assert_eq!(archive_kind("a.tar.bz2").unwrap(), ArchiveKind::TarBz2);
    assert_eq!(archive_kind("a.tbz2").unwrap(), ArchiveKind::TarBz2);
    assert!(archive_kind("a.gz").is_err());
}

#[test]
fn normalized_entry_names() {
    assert_eq!(normalize_zip_path("maps/test.bsp", 8).unwrap(), "maps/test.bsp");
    assert_eq!(normalize_zip_path("maps//test.bsp/", 8).unwrap(), "maps/test.bsp");
    assert_eq!(
        normalize_zip_path("./maps/test.bsp", 8).unwrap_err().message(),
        "./maps/test.bsp: path traversal is not accepted"
    );
    assert_eq!(
        normalize_zip_path("/maps/test.bsp", 8).unwrap_err().message(),
        "/maps/test.bsp: absolute paths are not accepted"
    );
    assert_eq!(
        normalize_zip_path("maps/con.bsp", 8).unwrap_err().message(),
        "maps/con.bsp: Windows reserved names are not accepted"
    );
    assert_eq!(
        normalize_zip_path("maps/test.", 8).unwrap_err().message(),
        "maps/test.: names ending with space/dot are not accepted"
    );
    assert_eq!(
        normalize_zip_path("a/b/c", 2).unwrap_err().message(),
        "a/b/c: folder depth exceeds the limit"
    );
    assert_eq!(
        normalize_zip_path("", 8).unwrap_err().message(),
        "entry has an empty or invalid name"
    );
}

#[test]
fn report_counts_folders_extensions_and_largest_files() {
    let config = test_config("server");
    let report = validate(
        &config,
        "package.zip",
        "map",
        &[
            ("maps/test.bsp", b"bspbspbsp"),
            ("maps/test.txt", b"t"),
            ("sound/a.wav", b"wavwav"),
        ],
        &["maps/test.bsp"],
    )
    .expect("valid package");
    assert_eq!(report.content_type, "Map");
    assert_eq!(report.total_uncompressed_bytes, 16);
    let folders: Vec<(String, usize)> = report
        .folders
        .iter()
        .map(|c| (c.name.clone(), c.count))
        .collect();
    assert!(folders.contains(&("maps".to_string(), 2)));
    assert!(folders.contains(&("sound".to_string(), 1)));
    assert_eq!(report.largest_files[0].path, "maps/test.bsp");
    assert_eq!(report.largest_files[1].path, "sound/a.wav");
    assert_eq!(report.conflicts, vec!["maps/test.bsp".to_string()]);
    assert_eq!(report.compressed_files.len(), 6);
}

#[test]
fn empty_archive_and_missing_required_extension_are_refused() {
    let config = test_config("server");
    assert_eq!(
        error_text(validate(&config, "package.zip", "map", &[], &[])),
        "archive is empty"
    );
    assert_eq!(
        error_text(validate(&config, "package.zip", "map", &[("maps/test.txt", b"t")], &[])),
        "archive must contain the required extension .bsp"
    );
    assert_eq!(
        error_text(validate(&config, "package.zip", "sound", &[("sound/a.txt", b"t")], &[])),
        "sound/a.txt: extension .txt is not allowed for Sound"
    );
}

#[test]
fn symlinks_are_refused() {
    let config = test_config("server");
    let mut session = ValidationSession::new();
    let result = session.process_entry(&config.content_types[0], "maps/test.bsp", 1, 1, true);
    assert_eq!(
        result.unwrap_err().message(),
        "maps/test.bsp: symlinks are not accepted"
    );
}
