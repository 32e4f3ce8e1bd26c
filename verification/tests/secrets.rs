use fastdl_desktop::secrets::{credential_blob_size, credential_delete, credential_read, credential_write};
use fastdl_desktop::secrets::{
    clear_args, command_error, delete_secret, lookup_args, read_secret, store_args,
    store_outcome, target_name, write_secret, HelperRun, SecretError, SecretWrite, StoreRun,
};

fn finished(success: bool, code: Option<i32>, stdout: &[u8], stderr: &[u8]) -> HelperRun {
    HelperRun::Finished {
        success,
        code,
        stdout: stdout.to_vec(),
        stderr: stderr.to_vec(),
    }
}

fn linux_message(result: SecretError) -> String {
    match result {
        SecretError::Linux(message) => message,
        other => panic!("unexpected {other:?}"),
    }
}

#[test]
fn credentials_are_stored_under_the_service_name() {
    assert_eq!(target_name("ftp-password"), "FastDL Desktop/ftp-password");
    assert_eq!(
        lookup_args("FastDL Desktop/x"),
        vec!["lookup", "service", "FastDL Desktop", "account", "FastDL Desktop/x"]
    );
    assert_eq!(
        store_args("FastDL Desktop/x"),
        vec![
            "store",
            "--label",
            "FastDL Desktop FastDL Desktop/x",
            "service",
            "FastDL Desktop",
            "account",
            "FastDL Desktop/x"
        ]
    );
    assert_eq!(
        clear_args("t"),
        vec!["clear", "service", "FastDL Desktop", "account", "t"]
    );
}

#[test]
fn empty_or_missing_values_delete_the_stored_secret() {
    match write_secret("ftp-password", Some("hunter2")) {
        SecretWrite::Store { target, value } => {
            assert_eq!(target, "FastDL Desktop/ftp-password");
            assert_eq!(value, "hunter2");
        }
        other => panic!("unexpected {other:?}"),
    }
    assert!(matches!(
        write_secret("ftp-password", Some("")),
        SecretWrite::Delete { target } if target == "FastDL Desktop/ftp-password"
    ));
    assert!(matches!(write_secret("x", None), SecretWrite::Delete { .. }));
}

#[test]
fn lookups_read_the_helper_answer() {
    assert!(matches!(read_secret(HelperRun::NotFound), Ok(None)));
    assert_eq!(
        read_secret(finished(true, Some(0), b"secret\r\n\n", b"")).unwrap(),
        Some("secret".to_string())
    );
    assert!(matches!(read_secret(finished(false, Some(1), b"", b"")), Ok(None)));
    assert_eq!(
        linux_message(read_secret(finished(false, Some(2), b"", b"  boom \n")).unwrap_err()),
        "boom"
    );
    assert_eq!(
        linux_message(read_secret(finished(false, None, b"", b"")).unwrap_err()),
        "secret-tool returned an error"
    );
    assert_eq!(
        linux_message(read_secret(HelperRun::SpawnFailed("denied".to_string())).unwrap_err()),
        "denied"
    );
}

#[test]
fn deletions_accept_missing_credentials() {
    assert!(delete_secret(HelperRun::NotFound).is_ok());
    assert!(delete_secret(finished(true, Some(0), b"", b"")).is_ok());
    assert!(delete_secret(finished(false, Some(1), b"", b"")).is_ok());
    assert_eq!(
        linux_message(delete_secret(finished(false, Some(3), b"", b"locked")).unwrap_err()),
        "locked"
    );
}

#[test]
fn stores_report_each_failure() {
    assert!(matches!(
        store_outcome(StoreRun::NotFound),
        Err(SecretError::LinuxUnavailable)
    ));
    assert_eq!(
        linux_message(store_outcome(StoreRun::NoInput).unwrap_err()),
        "could not open secret-tool stdin"
    );
    assert_eq!(
        linux_message(store_outcome(StoreRun::WriteFailed("pipe".to_string())).unwrap_err()),
        "pipe"
    );
    assert!(store_outcome(StoreRun::Finished { success: true, stderr: Vec::new() }).is_ok());
    assert_eq!(
        linux_message(
            store_outcome(StoreRun::Finished { success: false, stderr: b"\xff no".to_vec() })
                .unwrap_err()
        ),
        "\u{fffd} no"
    );
    assert_eq!(command_error("  "), "secret-tool returned an error");
}

#[test]
fn secret_errors_read_as_their_causes() {
    assert_eq!(
        SecretError::Windows(1168).message(),
        "Windows Credential Manager operation failed with code 1168"
    );
    assert_eq!(
        SecretError::Linux("x".to_string()).message(),
        "Linux Secret Service operation failed: x"
    );
    assert_eq!(
        SecretError::Unavailable.message(),
        "secure secret storage is not available on this platform"
    );
    assert_eq!(
        SecretError::TooLarge.message(),
        "secret is too large for Windows Credential Manager"
    );
}

#[test]
fn written_secrets_read_back_through_the_store() {
    let value = "p\u{e4}ss word";
    let stored = match write_secret("ftp-password", Some(value)) {
        SecretWrite::Store { value, .. } => value,
        other => panic!("expected a store, got {other:?}"),
    };
    let mut printed = stored.clone().into_bytes();
    printed.push(b'\n');
    assert_eq!(read_secret(finished(true, Some(0), &printed, b"")).unwrap(), Some(value.to_string()));

    for cleared in [None, Some("")] {
        assert!(matches!(write_secret("ftp-password", cleared), SecretWrite::Delete { .. }));
        assert!(matches!(read_secret(finished(false, Some(1), b"", b"")), Ok(None)));
    }
}

#[test]
fn credential_manager_answers() {
    assert_eq!(credential_read(Ok(b"secret".to_vec())).unwrap(), Some("secret".to_string()));
    assert!(matches!(credential_read(Err(1168)), Ok(None)));
    assert!(matches!(credential_read(Err(5)), Err(SecretError::Windows(5))));
    assert!(credential_delete(Err(1168)).is_ok());
    assert!(matches!(credential_delete(Err(5)), Err(SecretError::Windows(5))));
    assert!(credential_write(Ok(())).is_ok());
    assert!(matches!(credential_write(Err(87)), Err(SecretError::Windows(87))));
    assert_eq!(credential_blob_size(6).unwrap(), 6);
}
