use fastdl_desktop::sftp::{base64_no_padding, remote_join};

#[test]
fn remote_join_keeps_single_separator() {
    assert_eq!(
        remote_join("/fastdl/", "/maps/test.bsp.gz"),
        "/fastdl/maps/test.bsp.gz"
    );
    assert_eq!(
        remote_join("fastdl", "maps/test.bsp.gz"),
        "fastdl/maps/test.bsp.gz"
    );
}

#[test]
fn base64_fingerprint_encoding_omits_padding() {
    assert_eq!(base64_no_padding(b""), "");
    assert_eq!(base64_no_padding(b"a"), "YQ");
    assert_eq!(base64_no_padding(b"ab"), "YWI");
    assert_eq!(base64_no_padding(b"abc"), "YWJj");
}
