# fastdl_desktop

The library behind FastDL Desktop, a desktop tool that validates, installs,
compresses, publishes and rolls back Sven Co-op FastDL packages. The library
is written in Verus: each function carries a contract, and the contracts and
the laws below them are checked by the verifier.

## Layout

- `src/` — the verified library.
  - `text.rs`: character-level string operations with specifications.
  - `config.rs`: the settings and the default content types.
  - `paths.rs`: archive entry names, path components, joining and display.
  - `validation.rs`, `report.rs`: package validation entry by entry, `.res`
    resource lists, and the validation report.
  - `storage.rs`: storage roots, upload ids, manifests, install and rollback
    decisions, the order of an install's steps.
  - `content.rs`: SHA-256 digests and compressed copies.
  - `ftp.rs`, `sftp.rs`: what FTP and SFTP transfers need, host-key
    fingerprints and trust.
  - `audit.rs`, `commands.rs`, `secrets.rs`: the audit log, the log view and
    credentials kept out of the saved settings.
- `tests/` — tests of the library.
- `app/` — the desktop side: archives, files, FTP/SFTP sessions, secret
  storage and the JSON forms of the records.
