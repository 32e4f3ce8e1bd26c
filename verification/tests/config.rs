use fastdl_desktop::config::{normalize_extensions, AppConfig, CompressedFormat, ServerInstallMode};

#[test]
fn defaults_hold_the_three_content_types() {
    let config = AppConfig::default();
    let ids: Vec<&str> = config.content_types.iter().map(|c| c.id.as_str()).collect();
    assert_eq!(ids, vec!["map", "sound", "sprite"]);
    assert_eq!(config.storage.server_root, "");
    assert_eq!(config.storage.server_install_mode, ServerInstallMode::Local);
    assert_eq!(config.storage.compressed_formats, vec![CompressedFormat::Gz]);
    assert!(!config.storage.allow_overwrite);
    assert!(config.storage.backup_existing);
    assert_eq!(config.storage.ftp.port, 21);
    assert_eq!(config.storage.sftp.port, 22);
    let map = config.content_type("map").unwrap();
    assert_eq!(map.name, "Map");
    assert_eq!(map.max_compressed_bytes, 256 * 1024 * 1024);
    assert_eq!(map.max_file_count, 500);
    assert_eq!(map.required_extensions, vec![".bsp"]);
    assert_eq!(map.path_rules[0].prefix, "maps");
    assert_eq!(map.path_rules[0].extensions, vec![".bsp", ".res", ".txt"]);
    assert_eq!(config.content_type("sound").unwrap().required_any_extensions, vec![".wav", ".mp3"]);
    assert!(config.content_type("skin").is_none());
}

#[test]
fn extensions_are_trimmed_lowercased_and_dotted() {
    assert_eq!(normalize_extensions(&[" BSP ", ".Wav", ""]), vec![".bsp", ".wav", "."]);
}
