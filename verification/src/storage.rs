//! Installing packages into the server root, the upload manifests that record
//! each install, and rolling an install back. The file-system work runs
//! outside this library; here are the paths, the checks and the records.
use vstd::prelude::*;
use crate::config::{opt_view, strs, AppConfig, CompressedFormat, FtpConfig, ServerInstallMode, SftpConfig};
use crate::ftp::FtpPublishError;
use crate::sftp::SftpError;
use crate::validation::ValidationError;
use crate::paths::{comps_display, display_of, display_path, join_path, join_paths, path_from_posix, posix_path, posix_upto, strip_components, strip_prefix_display};
use crate::report::{format_extension, format_suffix};
use crate::text::{
    chars_contain, chars_ends_with, chars_find, chars_of, chars_starts_with, concat2, concat3, contains_seq,
    decimal, decimal_string, ends_with, lemma_split_pieces_free, split_on, starts_with, string_of, substring,
};

verus! {

/// Why an install, a rollback or a manifest operation failed.
#[derive(Debug)]
pub enum StorageError {
    Validation(ValidationError),
    Ftp(FtpPublishError),
    Sftp(SftpError),
    MissingServerRoot,
    Io(String),
    Zip(String),
    Json(String),
    Rejected(String),
}

impl StorageError {
    pub open spec fn text(&self) -> Seq<char> {
        match self {
            StorageError::Validation(e) => e.text(),
            StorageError::Ftp(e) => e.text(),
            StorageError::Sftp(e) => e.text(),
            StorageError::MissingServerRoot => "server root is not configured"@,
            StorageError::Io(e) => "I/O operation failed: "@ + e@,
            StorageError::Zip(e) => "invalid ZIP archive: "@ + e@,
            StorageError::Json(e) => "manifest JSON is invalid: "@ + e@,
            StorageError::Rejected(m) => m@,
        }
    }

    /// The text shown for this error.
    pub fn message(&self) -> (r: String)
        ensures
            r@ == self.text(),
    {
        match self {
            StorageError::Validation(e) => e.message(),
            StorageError::Ftp(e) => e.message(),
            StorageError::Sftp(e) => e.message(),
            StorageError::MissingServerRoot => String::from_str("server root is not configured"),
            StorageError::Io(e) => concat2("I/O operation failed: ", e.as_str()),
            StorageError::Zip(e) => concat2("invalid ZIP archive: ", e.as_str()),
            StorageError::Json(e) => concat2("manifest JSON is invalid: ", e.as_str()),
            StorageError::Rejected(m) => m.clone(),
        }
    }
}

/// Whether `e` is a refusal with exactly the text `m`.
pub open spec fn is_refusal(e: StorageError, m: Seq<char>) -> bool {
    e matches StorageError::Rejected(t) && t@ == m
}

// ---------------------------------------------------------------------------
// The storage roots
// ---------------------------------------------------------------------------

/// The folders an install works in: the server root, the optional FastDL root,
/// and the bookkeeping folders and lock file under the server root.
#[derive(Debug)]
pub struct StorageRoots {
    pub server: String,
    pub fastdl: Option<String>,
    pub incoming: String,
    pub backups: String,
    pub uploads: String,
    pub lock_path: String,
}

/// The display path of a compressed copy: under `fastdl/` when a FastDL root is set.
pub open spec fn compressed_display(fastdl: bool, relative: Seq<char>) -> Seq<char> {
    if fastdl {
        "fastdl/"@ + display_of(relative)
    } else {
        display_of(relative)
    }
}

/// The display path of a file under one of the roots, or the refusal text.
pub open spec fn target_display(server: Seq<char>, fastdl: Option<Seq<char>>, target: Seq<char>) -> Result<Seq<char>, Seq<char>> {
    match strip_components(target, server) {
        Some(rest) => Ok(comps_display(rest)),
        None => match fastdl {
            Some(f) => match strip_components(target, f) {
                Some(rest) => Ok("fastdl/"@ + comps_display(rest)),
                None => Err("path is outside configured roots"@),
            },
            None => Err("path is outside configured roots"@),
        },
    }
}

/// Whether a manifest path may be resolved: no backslash, no `..`, not absolute.
pub open spec fn safe_relative(relative: Seq<char>) -> bool {
    !relative.contains('\\') && !contains_seq(relative, ".."@) && !(relative.len() > 0 && relative[0] == '/')
}

/// The file-system path of a manifest's display path, or the refusal text.
pub open spec fn resolve_display(server: Seq<char>, fastdl: Option<Seq<char>>, display: Seq<char>) -> Result<Seq<char>, Seq<char>> {
    let prefixed = starts_with(display, "fastdl/"@);
    let relative = crate::report::without_fastdl(display);
    if prefixed && fastdl is None {
        Err("manifest references FastDL root but none is configured: "@ + display)
    } else if !safe_relative(relative) {
        Err("unsafe manifest path: "@ + display)
    } else {
        Ok(join_path(if prefixed { fastdl->0 } else { server }, posix_path(relative)))
    }
}

impl StorageRoots {
    pub open spec fn fastdl_view(&self) -> Option<Seq<char>> {
        opt_view(self.fastdl)
    }

    /// The roots of a configuration; the server root must be set.
    pub fn from_config(config: &AppConfig) -> (r: Result<StorageRoots, StorageError>)
        ensures
            config.storage.server_root@.len() == 0 ==> r matches Err(StorageError::MissingServerRoot),
            config.storage.server_root@.len() > 0 ==> (r matches Ok(roots) && {
                let s = config.storage.server_root@;
                &&& roots.server@ == s
                &&& roots.fastdl_view() == opt_view(config.storage.fastdl_root)
                &&& roots.incoming@ == join_path(s, ".incoming"@)
                &&& roots.backups@ == join_path(s, ".backups"@)
                &&& roots.uploads@ == join_path(s, ".uploads"@)
                &&& roots.lock_path@ == join_path(s, ".fastdl-upload.lock"@)
            }),
    {
        if config.storage.server_root.as_str().is_empty() {
            return Err(StorageError::MissingServerRoot);
        }
        let server = config.storage.server_root.clone();
        let fastdl = crate::config::clone_opt(&config.storage.fastdl_root);
        let incoming = join_paths(server.as_str(), ".incoming");
        let backups = join_paths(server.as_str(), ".backups");
        let uploads = join_paths(server.as_str(), ".uploads");
        let lock_path = join_paths(server.as_str(), ".fastdl-upload.lock");
        Ok(StorageRoots { server, fastdl, incoming, backups, uploads, lock_path })
    }

    /// Where compressed copies go: the FastDL root when one is set, else the server root.
    pub fn compressed_base(&self) -> (r: &str)
        ensures
            r@ == match self.fastdl_view() {
                Some(f) => f,
                None => self.server@,
            },
    {
        match &self.fastdl {
            Some(f) => f.as_str(),
            None => self.server.as_str(),
        }
    }

    /// The manifest file of an upload: `<id>.json` in the uploads folder.
    pub fn manifest_path(&self, upload_id: &str) -> (r: String)
        ensures
            r@ == join_path(self.uploads@, upload_id@ + ".json"@),
    {
        let name = concat2(upload_id, ".json");
        join_paths(self.uploads.as_str(), name.as_str())
    }

    /// The display path of a compressed copy given its path relative to the compressed base.
    pub fn display_path_for_compressed(&self, relative: &str) -> (r: String)
        ensures
            r@ == compressed_display(self.fastdl is Some, relative@),
    {
        let shown = display_path(relative);
        if self.fastdl.is_some() {
            concat2("fastdl/", shown.as_str())
        } else {
            shown
        }
    }

    /// The display path of a file under the server root, or under the FastDL root with `fastdl/` before it.
    pub fn display_path_for_target(&self, target: &str) -> (r: Result<String, StorageError>)
        ensures
            match target_display(self.server@, self.fastdl_view(), target@) {
                Ok(d) => r matches Ok(s) && s@ == d,
                Err(m) => r matches Err(e) && is_refusal(e, m),
            },
    {
        match strip_prefix_display(target, self.server.as_str()) {
            Some(d) => return Ok(d),
            None => {},
        }
        match &self.fastdl {
            Some(f) => match strip_prefix_display(target, f.as_str()) {
                Some(d) => return Ok(concat2("fastdl/", d.as_str())),
                None => {},
            },
            None => {},
        }
        Err(StorageError::Rejected(String::from_str("path is outside configured roots")))
    }

    /// The file-system path of a manifest's display path. Paths with a
    /// backslash, a `..` or a leading `/` are refused, and `fastdl/` paths
    /// need a FastDL root.
    pub fn resolve_display_path(&self, display: &str) -> (r: Result<String, StorageError>)
        ensures
            match resolve_display(self.server@, self.fastdl_view(), display@) {
                Ok(p) => r matches Ok(s) && s@ == p,
                Err(m) => r matches Err(e) && is_refusal(e, m),
            },
    {
        let d = chars_of(display);
        let prefix = chars_of("fastdl/");
        let prefixed = chars_starts_with(d.as_slice(), prefix.as_slice());
        let relative = if prefixed {
            substring(d.as_slice(), prefix.len(), d.len())
        } else {
            String::from_str(display)
        };
        proof {
            reveal_strlit("fastdl/");
        }
        assert(prefixed ==> d@.subrange(prefix@.len() as int, d@.len() as int) =~= d@.skip(7));
        if prefixed && self.fastdl.is_none() {
            return Err(
                StorageError::Rejected(concat2("manifest references FastDL root but none is configured: ", display)),
            );
        }
        let rel = chars_of(relative.as_str());
        let dots = chars_of("..");
        if chars_contain(rel.as_slice(), '\\') || chars_find(rel.as_slice(), dots.as_slice()) || (rel.len() > 0
            && rel[0] == '/') {
            return Err(StorageError::Rejected(concat2("unsafe manifest path: ", display)));
        }
        let posix = path_from_posix(relative.as_str());
        let base = match &self.fastdl {
            Some(f) => if prefixed {
                f.as_str()
            } else {
                self.server.as_str()
            },
            None => self.server.as_str(),
        };
        Ok(join_paths(base, posix.as_str()))
    }
}

/// Joining `/`-separated pieces never gives a path that starts with `/`.
proof fn lemma_posix_upto_relative(pieces: Seq<Seq<char>>, n: int)
    requires
        0 <= n <= pieces.len(),
        forall|i: int| 0 <= i < pieces.len() ==> !(#[trigger] pieces[i]).contains('/'),
    ensures
        !(posix_upto(pieces, n).len() > 0 && posix_upto(pieces, n)[0] == '/'),
    decreases n,
{
    if n > 0 {
        lemma_posix_upto_relative(pieces, n - 1);
        let acc = posix_upto(pieces, n - 1);
        let piece = pieces[n - 1];
        if piece.len() > 0 {
            assert(piece.contains(piece[0]));
        }
        if acc.len() > 0 {
            let r = join_path(acc, piece);
            assert(r[0] == acc[0]);
        }
    }
}

/// A `/`-separated relative path turned into a file-system path never starts with `/`.
pub proof fn lemma_posix_path_relative(s: Seq<char>)
    ensures
        !(posix_path(s).len() > 0 && posix_path(s)[0] == '/'),
{
    let pieces = split_on(s, '/');
    lemma_split_pieces_free(s, '/');
    lemma_posix_upto_relative(pieces, pieces.len() as int);
}

/// A manifest path that resolves always lies under its root: the resolved
/// path begins with the server root, or with the FastDL root for `fastdl/` paths.
pub proof fn lemma_resolved_under_root(server: Seq<char>, fastdl: Option<Seq<char>>, display: Seq<char>)
    requires
        resolve_display(server, fastdl, display) is Ok,
    ensures
        starts_with(
            resolve_display(server, fastdl, display)->Ok_0,
            if starts_with(display, "fastdl/"@) { fastdl->0 } else { server },
        ),
{
    let base = if starts_with(display, "fastdl/"@) { fastdl->0 } else { server };
    let rel = posix_path(crate::report::without_fastdl(display));
    lemma_posix_path_relative(crate::report::without_fastdl(display));
    let r = join_path(base, rel);
    assert(r.subrange(0, base.len() as int) =~= base);
}

// ---------------------------------------------------------------------------
// Upload ids
// ---------------------------------------------------------------------------

/// Whether an upload id may name a manifest file: not empty, no `/`, `\`
/// or `..`, and not ending in `.json`.
pub open spec fn upload_id_ok(id: Seq<char>) -> bool {
    &&& id.len() > 0
    &&& !id.contains('/')
    &&& !id.contains('\\')
    &&& !contains_seq(id, ".."@)
    &&& !ends_with(id, ".json"@)
}

/// An upload id that could escape the uploads folder is refused.
pub fn validate_upload_id(upload_id: &str) -> (r: Result<(), StorageError>)
    ensures
        upload_id_ok(upload_id@) ==> r is Ok,
        !upload_id_ok(upload_id@) ==> (r matches Err(e) && is_refusal(e, "invalid upload id"@)),
{
    let v = chars_of(upload_id);
    let dots = chars_of("..");
    let json = chars_of(".json");
    if v.len() == 0 || chars_contain(v.as_slice(), '/') || chars_contain(v.as_slice(), '\\') || chars_find(
        v.as_slice(),
        dots.as_slice(),
    ) || chars_ends_with(v.as_slice(), json.as_slice()) {
        return Err(StorageError::Rejected(String::from_str("invalid upload id")));
    }
    Ok(())
}

/// A lowercase hexadecimal digit.
pub open spec fn is_lower_hex(c: char) -> bool {
    ('0' <= c && c <= '9') || ('a' <= c && c <= 'f')
}

/// A random token as `Uuid::simple` writes one: 32 lowercase hexadecimal digits.
pub open spec fn is_token(t: Seq<char>) -> bool {
    t.len() == 32 && forall|i: int| 0 <= i < t.len() ==> is_lower_hex(#[trigger] t[i])
}

/// The decimal form of a signed number.
pub open spec fn signed_decimal(t: int) -> Seq<char> {
    if t < 0 {
        "-"@ + decimal((-t) as nat)
    } else {
        decimal(t as nat)
    }
}

/// An upload id: the Unix time, `-`, and a random token.
pub open spec fn upload_id_of(timestamp: int, token: Seq<char>) -> Seq<char> {
    signed_decimal(timestamp) + "-"@ + token
}

fn signed_decimal_string(t: i64) -> (r: String)
    ensures
        r@ == signed_decimal(t as int),
{
    if t < 0 {
        let a: u64 = if t == i64::MIN {
            9223372036854775808u64
        } else {
            (-t) as u64
        };
        let digits = decimal_string(a);
        concat2("-", digits.as_str())
    } else {
        decimal_string(t as u64)
    }
}

/// The upload id of a Unix time and a token.
pub fn upload_id_text(timestamp: i64, token: &str) -> (r: String)
    ensures
        r@ == upload_id_of(timestamp as int, token@),
{
    let t = signed_decimal_string(timestamp);
    concat3(t.as_str(), "-", token)
}

/// `OffsetDateTime::now_utc().unix_timestamp()` of the `time` crate: the
/// current time as whole seconds since the Unix epoch. It depends on the
/// clock, so nothing is promised of the value.
#[verifier::external_body]
fn unix_time_now() -> (r: i64) {
    time::OffsetDateTime::now_utc().unix_timestamp()
}

/// `Uuid::new_v4().simple()` of the `uuid` crate, as text. The value is
/// random; its `Display` form is always 32 lowercase hexadecimal digits.
#[verifier::external_body]
fn random_token() -> (r: String)
    ensures
        is_token(r@),
{
    uuid::Uuid::new_v4().simple().to_string()
}

/// The character of a decimal digit lies between `0` and `9`.
proof fn lemma_digit_char(d: nat)
    requires
        d < 10,
    ensures
        '0' <= crate::text::digit_char(d) && crate::text::digit_char(d) <= '9',
{
    let u: u32 = (48 + d) as u32;
    if d == 0 { vstd::utf8::char_u32_cast('0', u); }
    else if d == 1 { vstd::utf8::char_u32_cast('1', u); }
    else if d == 2 { vstd::utf8::char_u32_cast('2', u); }
    else if d == 3 { vstd::utf8::char_u32_cast('3', u); }
    else if d == 4 { vstd::utf8::char_u32_cast('4', u); }
    else if d == 5 { vstd::utf8::char_u32_cast('5', u); }
    else if d == 6 { vstd::utf8::char_u32_cast('6', u); }
    else if d == 7 { vstd::utf8::char_u32_cast('7', u); }
    else if d == 8 { vstd::utf8::char_u32_cast('8', u); }
    else { vstd::utf8::char_u32_cast('9', u); }
}

/// A decimal digit character.
pub open spec fn is_digit_char(c: char) -> bool {
    '0' <= c && c <= '9'
}

/// A UTC time stamp in the RFC 3339 form that the `time` crate writes:
/// `YYYY-MM-DDTHH:MM:SS`, then, when the second has a fraction, a dot and
/// one to nine digits, then `Z`.
pub open spec fn is_rfc3339_utc(s: Seq<char>) -> bool {
    &&& (s.len() == 20 || (22 <= s.len() <= 30 && s[19] == '.'
        && forall|i: int| 20 <= i < s.len() - 1 ==> #[trigger] is_digit_char(s[i])))
    &&& forall|i: int|
        0 <= i < 19 && i != 4 && i != 7 && i != 10 && i != 13 && i != 16 ==> #[trigger] is_digit_char(s[i])
    &&& s[4] == '-'
    &&& s[7] == '-'
    &&& s[10] == 'T'
    &&& s[13] == ':'
    &&& s[16] == ':'
    &&& s[s.len() - 1] == 'Z'
}

/// `OffsetDateTime::now_utc().format(&Rfc3339)` of the `time` crate: the
/// current UTC time in RFC 3339 form, or `None` when the crate cannot format
/// it (a year outside 0 to 9999). The time depends on the clock, so only the
/// form of the text is promised: four digits of the year, two each of month,
/// day, hour, minute and second with their separators, the fraction of the
/// second when it is not zero (its trailing zeros cut), and `Z` for UTC.
#[verifier::external_body]
fn rfc3339_now() -> (r: Option<String>)
    ensures
        r matches Some(s) ==> is_rfc3339_utc(s@),
{
    time::OffsetDateTime::now_utc().format(&time::format_description::well_known::Rfc3339).ok()
}

/// The text of a time stamp: the formatted time, or `unknown-time` without one.
pub fn timestamp_text(formatted: Option<String>) -> (r: String)
    ensures
        match formatted {
            Some(s) => r == s,
            None => r@ == "unknown-time"@,
        },
{
    match formatted {
        Some(s) => s,
        None => String::from_str("unknown-time"),
    }
}

/// The current time as the manifests and the audit log write it: RFC 3339
/// in UTC, or `unknown-time` when it cannot be formatted.
pub fn now_rfc3339() -> (r: String)
    ensures
        is_rfc3339_utc(r@) || r@ == "unknown-time"@,
{
    timestamp_text(rfc3339_now())
}

/// Every character of a decimal number is a digit.
proof fn lemma_decimal_digits(n: nat)
    ensures
        forall|i: int| 0 <= i < decimal(n).len() ==> '0' <= #[trigger] decimal(n)[i] && decimal(n)[i] <= '9',
    decreases n,
{
    if n >= 10 {
        let p = decimal(n / 10);
        lemma_decimal_digits(n / 10);
        lemma_digit_char(n % 10);
        assert forall|i: int| 0 <= i < decimal(n).len() implies '0' <= #[trigger] decimal(n)[i] && decimal(n)[i] <= '9' by {
            if i < p.len() {
                assert(decimal(n)[i] == p[i]);
            }
        }
    } else {
        lemma_digit_char(n);
    }
}

/// Every upload id made of a time and a token passes `validate_upload_id`:
/// it holds only digits, `-` and lowercase hexadecimal digits.
pub proof fn lemma_upload_id_valid(timestamp: int, token: Seq<char>)
    requires
        is_token(token),
    ensures
        upload_id_ok(upload_id_of(timestamp, token)),
{
    reveal_strlit("-");
    reveal_strlit("..");
    reveal_strlit(".json");
    let id = upload_id_of(timestamp, token);
    let n: nat = if timestamp < 0 { (-timestamp) as nat } else { timestamp as nat };
    lemma_decimal_digits(n);
    let d = signed_decimal(timestamp);
    assert forall|i: int| 0 <= i < id.len() implies id[i] != '/' && id[i] != '\\' && id[i] != '.' by {
        if i < d.len() {
            if timestamp < 0 && i > 0 {
                assert(d[i] == decimal(n)[i - 1]);
            }
        } else if i > d.len() {
            assert(id[i] == token[i - d.len() - 1]);
        }
    }
    if contains_seq(id, ".."@) {
        let k = choose|k: int| 0 <= k && k + ".."@.len() <= id.len() && #[trigger] id.subrange(k, k + ".."@.len()) == ".."@;
        assert(id.subrange(k, k + 2)[0] == id[k]);
    }
    if ends_with(id, ".json"@) {
        assert(id.subrange(id.len() - 5, id.len() as int)[0] == id[id.len() - 5]);
    }
}

/// A fresh upload id: the current Unix time, `-`, and a random UUID in its
/// 32-digit form. It always passes `validate_upload_id`.
pub fn new_upload_id() -> (r: String)
    ensures
        exists|t: int, k: Seq<char>| is_token(k) && r@ == upload_id_of(t, k),
        upload_id_ok(r@),
{
    let t = unix_time_now();
    let k = random_token();
    let r = upload_id_text(t, k.as_str());
    proof {
        lemma_upload_id_valid(t as int, k@);
    }
    r
}

// ---------------------------------------------------------------------------
// Upload manifests
// ---------------------------------------------------------------------------

/// The SHA-256 digest recorded for an installed file or compressed copy.
#[derive(Debug)]
pub struct FileHash {
    pub path: String,
    pub sha256: String,
}

impl View for FileHash {
    type V = (Seq<char>, Seq<char>);

    open spec fn view(&self) -> (Seq<char>, Seq<char>) {
        (self.path@, self.sha256@)
    }
}

/// A file that an install moved aside, and where it went.
#[derive(Debug)]
pub struct BackupEntry {
    pub target: String,
    pub backup: String,
}

impl View for BackupEntry {
    type V = (Seq<char>, Seq<char>);

    open spec fn view(&self) -> (Seq<char>, Seq<char>) {
        (self.target@, self.backup@)
    }
}

/// The record of one upload: what was installed, compressed, backed up and
/// published, and whether it was rolled back.
#[derive(Debug)]
pub struct UploadManifest {
    pub upload_id: String,
    pub content_type: String,
    pub source_zip: String,
    pub status: String,
    pub started_at: String,
    pub completed_at: Option<String>,
    pub rolled_back_at: Option<String>,
    pub server_root: String,
    pub fastdl_root: Option<String>,
    pub installed_files: Vec<String>,
    pub installed_hashes: Vec<FileHash>,
    pub compressed_files: Vec<String>,
    pub compressed_hashes: Vec<FileHash>,
    pub backups: Vec<BackupEntry>,
    pub server_published_files: Vec<String>,
    pub server_rolled_back_files: Vec<String>,
    pub ftp_published_files: Vec<String>,
    pub sftp_published_files: Vec<String>,
    pub ftp_rolled_back_files: Vec<String>,
    pub sftp_rolled_back_files: Vec<String>,
}

pub open spec fn hash_views(v: Vec<FileHash>) -> Seq<(Seq<char>, Seq<char>)> {
    v@.map_values(|h: FileHash| h@)
}

pub open spec fn backup_views(v: Vec<BackupEntry>) -> Seq<(Seq<char>, Seq<char>)> {
    v@.map_values(|b: BackupEntry| b@)
}

/// The files that remote publishing reached, by protocol.
#[derive(Debug)]
pub struct RemotePublishResult {
    pub ftp: Vec<String>,
    pub sftp: Vec<String>,
}

impl UploadManifest {
    /// The record of an install that has just started: status `started`,
    /// nothing installed yet.
    pub fn started(
        upload_id: String,
        content_type: &str,
        source_zip: &str,
        roots: &StorageRoots,
        started_at: String,
    ) -> (r: UploadManifest)
        ensures
            r.upload_id == upload_id,
            r.content_type@ == content_type@,
            r.source_zip@ == source_zip@,
            r.status@ == "started"@,
            r.started_at == started_at,
            r.completed_at is None,
            r.rolled_back_at is None,
            r.server_root@ == roots.server@,
            opt_view(r.fastdl_root) == roots.fastdl_view(),
            r.installed_files@.len() == 0,
            r.installed_hashes@.len() == 0,
            r.compressed_files@.len() == 0,
            r.compressed_hashes@.len() == 0,
            r.backups@.len() == 0,
            r.server_published_files@.len() == 0,
            r.server_rolled_back_files@.len() == 0,
            r.ftp_published_files@.len() == 0,
            r.sftp_published_files@.len() == 0,
            r.ftp_rolled_back_files@.len() == 0,
            r.sftp_rolled_back_files@.len() == 0,
    {
        UploadManifest {
            upload_id,
            content_type: String::from_str(content_type),
            source_zip: String::from_str(source_zip),
            status: String::from_str("started"),
            started_at,
            completed_at: None,
            rolled_back_at: None,
            server_root: roots.server.clone(),
            fastdl_root: crate::config::clone_opt(&roots.fastdl),
            installed_files: Vec::new(),
            installed_hashes: Vec::new(),
            compressed_files: Vec::new(),
            compressed_hashes: Vec::new(),
            backups: Vec::new(),
            server_published_files: Vec::new(),
            server_rolled_back_files: Vec::new(),
            ftp_published_files: Vec::new(),
            sftp_published_files: Vec::new(),
            ftp_rolled_back_files: Vec::new(),
            sftp_rolled_back_files: Vec::new(),
        }
    }

    /// Records an installed file and its digest.
    pub fn record_installed(&mut self, display: String, sha256: String)
        ensures
            strs(final(self).installed_files) == strs(old(self).installed_files).push(display@),
            hash_views(final(self).installed_hashes) == hash_views(old(self).installed_hashes).push((display@, sha256@)),
            *final(self) == (UploadManifest {
                installed_files: final(self).installed_files,
                installed_hashes: final(self).installed_hashes,
                ..*old(self)
            }),
    {
        let shown = display.clone();
        self.installed_files.push(display);
        self.installed_hashes.push(FileHash { path: shown, sha256 });
        assert(strs(self.installed_files) =~= strs(old(self).installed_files).push(display@));
        assert(hash_views(self.installed_hashes) =~= hash_views(old(self).installed_hashes).push((display@, sha256@)));
    }

    /// Records a compressed copy and its digest.
    pub fn record_compressed(&mut self, display: String, sha256: String)
        ensures
            strs(final(self).compressed_files) == strs(old(self).compressed_files).push(display@),
            hash_views(final(self).compressed_hashes) == hash_views(old(self).compressed_hashes).push((display@, sha256@)),
            *final(self) == (UploadManifest {
                compressed_files: final(self).compressed_files,
                compressed_hashes: final(self).compressed_hashes,
                ..*old(self)
            }),
    {
        let shown = display.clone();
        self.compressed_files.push(display);
        self.compressed_hashes.push(FileHash { path: shown, sha256 });
        assert(strs(self.compressed_files) =~= strs(old(self).compressed_files).push(display@));
        assert(hash_views(self.compressed_hashes) =~= hash_views(old(self).compressed_hashes).push((display@, sha256@)));
    }

    /// Records a file that was moved aside.
    pub fn record_backup(&mut self, entry: BackupEntry)
        ensures
            backup_views(final(self).backups) == backup_views(old(self).backups).push(entry@),
            *final(self) == (UploadManifest { backups: final(self).backups, ..*old(self) }),
    {
        let ghost e = entry@;
        self.backups.push(entry);
        assert(backup_views(self.backups) =~= backup_views(old(self).backups).push(e));
    }
}

// ---------------------------------------------------------------------------
// Paths of installed files
// ---------------------------------------------------------------------------

/// The folders under the server root that belong to this application.
pub open spec fn is_internal_root(name: Seq<char>) -> bool {
    let l = crate::text::lower(name);
    l == ".incoming"@ || l == ".backups"@ || l == ".uploads"@ || l == ".fastdl-desktop"@
}

/// The text of the first component of a path, if it has one.
pub open spec fn first_component(path: Seq<char>) -> Option<Seq<char>> {
    let c = crate::paths::components(path);
    if c.len() > 0 {
        Some(crate::paths::comp_text(c[0]))
    } else {
        None
    }
}

/// The verdict on a path to install: refused when its first folder is one of
/// this application's own (in any letter case).
pub open spec fn internal_root_issue(relative: Seq<char>) -> Option<Seq<char>> {
    match first_component(relative) {
        Some(f) => if is_internal_root(f) {
            Some("refusing to install into internal directory: "@ + f)
        } else {
            None
        },
        None => None,
    }
}

fn is_internal_name(folded: &[char]) -> (r: bool)
    ensures
        r == (folded@ == ".incoming"@ || folded@ == ".backups"@ || folded@ == ".uploads"@ || folded@ == ".fastdl-desktop"@),
{
    let a = chars_of(".incoming");
    let b = chars_of(".backups");
    let c = chars_of(".uploads");
    let d = chars_of(".fastdl-desktop");
    crate::text::chars_eq(folded, a.as_slice()) || crate::text::chars_eq(folded, b.as_slice())
        || crate::text::chars_eq(folded, c.as_slice()) || crate::text::chars_eq(folded, d.as_slice())
}

/// A file may not be installed into the application's own folders.
pub fn validate_internal_root(relative: &str) -> (r: Result<(), StorageError>)
    ensures
        match internal_root_issue(relative@) {
            Some(m) => r matches Err(e) && is_refusal(e, m),
            None => r is Ok,
        },
{
    let v = chars_of(relative);
    let comps = crate::paths::path_components(v.as_slice());
    if comps.len() == 0 {
        return Ok(());
    }
    assert(comps@.map_values(|c: crate::paths::PathComponent| c@)[0] == comps@[0]@);
    let first = crate::paths::comp_text_of(&comps[0]);
    let folded = crate::text::lower_chars(first.as_slice());
    if is_internal_name(folded.as_slice()) {
        let shown = string_of(first.as_slice());
        return Err(StorageError::Rejected(concat2("refusing to install into internal directory: ", shown.as_str())));
    }
    Ok(())
}

/// The path of a compressed copy relative to the compressed base: the file's display path and the format's extension.
pub open spec fn compressed_relative(relative: Seq<char>, format: CompressedFormat) -> Seq<char> {
    display_of(relative) + "."@ + format_suffix(format)
}

pub fn compressed_relative_path(relative: &str, format: CompressedFormat) -> (r: String)
    ensures
        r@ == compressed_relative(relative@, format),
{
    let shown = display_path(relative);
    concat3(shown.as_str(), ".", format_extension(format))
}

/// The digest recorded first for a path among the given entries.
pub open spec fn first_hash(entries: Seq<(Seq<char>, Seq<char>)>, path: Seq<char>) -> Option<Seq<char>>
    decreases entries.len(),
{
    if entries.len() == 0 {
        None
    } else if entries[0].0 == path {
        Some(entries[0].1)
    } else {
        first_hash(entries.drop_first(), path)
    }
}

/// The digest a manifest expects for a path: installed files first, then compressed copies.
pub open spec fn expected_hash_of(m: UploadManifest, path: Seq<char>) -> Option<Seq<char>> {
    first_hash(hash_views(m.installed_hashes) + hash_views(m.compressed_hashes), path)
}

proof fn lemma_first_hash_append(a: Seq<(Seq<char>, Seq<char>)>, b: Seq<(Seq<char>, Seq<char>)>, path: Seq<char>)
    ensures
        first_hash(a + b, path) == match first_hash(a, path) {
            Some(h) => Some(h),
            None => first_hash(b, path),
        },
    decreases a.len(),
{
    if a.len() > 0 {
        assert((a + b).drop_first() =~= a.drop_first() + b);
        assert((a + b)[0] == a[0]);
        lemma_first_hash_append(a.drop_first(), b, path);
    } else {
        assert(a + b =~= b);
    }
}

fn find_hash(entries: &Vec<FileHash>, path: &str) -> (r: Option<String>)
    ensures
        match first_hash(hash_views(*entries), path@) {
            Some(h) => r matches Some(s) && s@ == h,
            None => r is None,
        },
{
    let ghost all = hash_views(*entries);
    let mut i: usize = 0;
    assert(all.skip(0) =~= all);
    while i < entries.len()
        invariant
            0 <= i <= entries.len(),
            all == hash_views(*entries),
            first_hash(all.skip(i as int), path@) == first_hash(all, path@),
        decreases entries.len() - i,
    {
        assert(all.skip(i as int)[0] == entries@[i as int]@);
        assert(all.skip(i as int).drop_first() =~= all.skip(i + 1));
        if crate::text::str_eq(entries[i].path.as_str(), path) {
            return Some(entries[i].sha256.clone());
        }
        i = i + 1;
    }
    None
}

/// The digest a manifest recorded for a path, if any.
pub fn expected_hash(manifest: &UploadManifest, path: &str) -> (r: Option<String>)
    ensures
        match expected_hash_of(*manifest, path@) {
            Some(h) => r matches Some(s) && s@ == h,
            None => r is None,
        },
{
    proof {
        lemma_first_hash_append(hash_views(manifest.installed_hashes), hash_views(manifest.compressed_hashes), path@);
    }
    match find_hash(&manifest.installed_hashes, path) {
        Some(h) => Some(h),
        None => find_hash(&manifest.compressed_hashes, path),
    }
}

// ---------------------------------------------------------------------------
// Rolling an upload back
// ---------------------------------------------------------------------------

/// What a rollback makes of an upload's status: `Ok(true)` when it was rolled
/// back already and nothing is left to do, a refusal for an installed upload
/// without force, else `Ok(false)`.
pub open spec fn rollback_gate(status: Seq<char>, force: bool) -> Result<bool, Seq<char>> {
    if status == "rolled_back"@ {
        Ok(true)
    } else if status == "installed"@ && !force {
        Err("refusing to roll back an installed upload without force"@)
    } else {
        Ok(false)
    }
}

/// Whether a rollback of this upload may go on (see `rollback_gate`).
pub fn rollback_start(manifest: &UploadManifest, force: bool) -> (r: Result<bool, StorageError>)
    ensures
        match rollback_gate(manifest.status@, force) {
            Ok(done) => r matches Ok(b) && b == done,
            Err(m) => r matches Err(e) && is_refusal(e, m),
        },
{
    if crate::text::str_eq(manifest.status.as_str(), "rolled_back") {
        Ok(true)
    } else if crate::text::str_eq(manifest.status.as_str(), "installed") && !force {
        Err(StorageError::Rejected(String::from_str("refusing to roll back an installed upload without force")))
    } else {
        Ok(false)
    }
}

/// The files a rollback removes, newest first: the compressed copies in
/// reverse order, then the installed files in reverse order.
pub open spec fn rollback_order(m: UploadManifest) -> Seq<Seq<char>> {
    strs(m.compressed_files).reverse() + strs(m.installed_files).reverse()
}

fn push_reversed(out: &mut Vec<String>, list: &Vec<String>)
    ensures
        strs(*final(out)) == strs(*old(out)) + strs(*list).reverse(),
{
    let ghost start = strs(*out);
    let mut i: usize = list.len();
    while i > 0
        invariant
            0 <= i <= list.len(),
            strs(*out) == start + strs(*list).reverse().take((list.len() - i) as int),
        decreases i,
    {
        i = i - 1;
        let ghost before = strs(*out);
        out.push(list[i].clone());
        assert(strs(*list).reverse()[(list.len() - 1 - i) as int] == list@[i as int]@);
        assert(strs(*out) =~= before.push(list@[i as int]@));
        assert(strs(*list).reverse().take((list.len() - i) as int) =~= strs(*list).reverse().take(
            (list.len() - i - 1) as int,
        ).push(list@[i as int]@));
    }
    assert(strs(*list).reverse().take(list.len() as int) =~= strs(*list).reverse());
}

/// The display paths a rollback removes, in the order it removes them.
pub fn rollback_files(manifest: &UploadManifest) -> (r: Vec<String>)
    ensures
        strs(r) == rollback_order(*manifest),
{
    let mut r: Vec<String> = Vec::new();
    push_reversed(&mut r, &manifest.compressed_files);
    push_reversed(&mut r, &manifest.installed_files);
    assert(strs(r) =~= rollback_order(*manifest));
    r
}

/// The verdict of a rollback on one recorded file: `Ok(false)` when it is
/// gone, a refusal for a directory or for a file whose digest differs from
/// the recorded one, else `Ok(true)` (delete it). `actual` is the file's
/// digest, taken whenever the manifest records one for it.
pub open spec fn deletion_verdict(
    m: UploadManifest,
    display: Seq<char>,
    present: bool,
    is_dir: bool,
    actual: Option<Seq<char>>,
) -> Result<bool, Seq<char>> {
    if !present {
        Ok(false)
    } else if is_dir {
        Err("refusing to delete directory during rollback: "@ + display)
    } else {
        match expected_hash_of(m, display) {
            Some(e) => if actual != Some(e) {
                Err("refusing to delete modified file during rollback: "@ + display)
            } else {
                Ok(true)
            },
            None => Ok(true),
        }
    }
}

fn same_hash(expected: &String, actual: &Option<String>) -> (r: bool)
    ensures
        r == (opt_view(*actual) == Some(expected@)),
{
    match actual {
        Some(a) => crate::text::str_eq(a.as_str(), expected.as_str()),
        None => false,
    }
}

/// Whether a rollback deletes one recorded file (see `deletion_verdict`).
/// A file is deleted only when it is there, is no directory, and matches the
/// digest the manifest recorded for it.
pub fn check_deletion(
    manifest: &UploadManifest,
    display: &str,
    present: bool,
    is_dir: bool,
    actual: &Option<String>,
) -> (r: Result<bool, StorageError>)
    ensures
        match deletion_verdict(*manifest, display@, present, is_dir, opt_view(*actual)) {
            Ok(d) => r matches Ok(b) && b == d,
            Err(m) => r matches Err(e) && is_refusal(e, m),
        },
        r matches Ok(true) ==> present && !is_dir && match expected_hash_of(*manifest, display@) {
            Some(h) => opt_view(*actual) == Some(h),
            None => true,
        },
{
    if !present {
        return Ok(false);
    }
    if is_dir {
        return Err(StorageError::Rejected(concat2("refusing to delete directory during rollback: ", display)));
    }
    match expected_hash(manifest, display) {
        Some(e) => if !same_hash(&e, actual) {
            Err(StorageError::Rejected(concat2("refusing to delete modified file during rollback: ", display)))
        } else {
            Ok(true)
        },
        None => Ok(true),
    }
}

/// The verdict of the cleanup after a failed install on one recorded file:
/// it is deleted only when it is there, is no directory, and matches its
/// recorded digest; anything else is left alone.
pub open spec fn cleanup_verdict(
    m: UploadManifest,
    display: Seq<char>,
    present: bool,
    is_dir: bool,
    actual: Option<Seq<char>>,
) -> bool {
    present && !is_dir && match expected_hash_of(m, display) {
        Some(e) => actual == Some(e),
        None => true,
    }
}

pub fn check_cleanup_deletion(
    manifest: &UploadManifest,
    display: &str,
    present: bool,
    is_dir: bool,
    actual: &Option<String>,
) -> (r: bool)
    ensures
        r == cleanup_verdict(*manifest, display@, present, is_dir, opt_view(*actual)),
{
    if !present || is_dir {
        return false;
    }
    match expected_hash(manifest, display) {
        Some(e) => same_hash(&e, actual),
        None => true,
    }
}

/// The backups a rollback restores, newest first.
pub fn backups_newest_first(manifest: &UploadManifest) -> (r: Vec<BackupEntry>)
    ensures
        backup_views(r) == backup_views(manifest.backups).reverse(),
{
    let ghost all = backup_views(manifest.backups);
    let mut r: Vec<BackupEntry> = Vec::new();
    let mut i: usize = manifest.backups.len();
    while i > 0
        invariant
            0 <= i <= manifest.backups.len(),
            all == backup_views(manifest.backups),
            backup_views(r) == all.reverse().take((manifest.backups.len() - i) as int),
        decreases i,
    {
        i = i - 1;
        let ghost before = backup_views(r);
        let b = &manifest.backups[i];
        r.push(BackupEntry { target: b.target.clone(), backup: b.backup.clone() });
        assert(all.reverse()[(manifest.backups.len() - 1 - i) as int] == all[i as int]);
        assert(backup_views(r) =~= before.push(all[i as int]));
        assert(all.reverse().take((manifest.backups.len() - i) as int) =~= all.reverse().take(
            (manifest.backups.len() - i - 1) as int,
        ).push(all[i as int]));
    }
    assert(all.reverse().take(manifest.backups.len() as int) =~= all.reverse());
    r
}

/// The verdict of a rollback on one backup: `Ok(false)` when the backup is
/// gone, a refusal when something now stands where it would go back, else
/// `Ok(true)` (move it back).
pub open spec fn restore_verdict(target_display: Seq<char>, target_exists: bool, backup_exists: bool) -> Result<bool, Seq<char>> {
    if !backup_exists {
        Ok(false)
    } else if target_exists {
        Err("refusing to overwrite during rollback: "@ + target_display)
    } else {
        Ok(true)
    }
}

/// Whether a rollback moves a backup back. It never overwrites a file.
pub fn check_restore(target_display: &str, target_exists: bool, backup_exists: bool) -> (r: Result<bool, StorageError>)
    ensures
        match restore_verdict(target_display@, target_exists, backup_exists) {
            Ok(d) => r matches Ok(b) && b == d,
            Err(m) => r matches Err(e) && is_refusal(e, m),
        },
        r matches Ok(true) ==> backup_exists && !target_exists,
{
    if !backup_exists {
        Ok(false)
    } else if target_exists {
        Err(StorageError::Rejected(concat2("refusing to overwrite during rollback: ", target_display)))
    } else {
        Ok(true)
    }
}

/// What a rollback found of one recorded file: its display path, where it
/// is on disk, whether something is there, whether that is a directory, and
/// its digest when the manifest records one for it.
#[derive(Debug)]
pub struct FileCheck {
    pub display: String,
    pub target: String,
    pub present: bool,
    pub is_dir: bool,
    pub actual: Option<String>,
}

/// What a rollback found of one backup: the display path it goes back to,
/// that path and the backup's on disk, and which of the two exist.
#[derive(Debug)]
pub struct BackupCheck {
    pub target_display: String,
    pub target: String,
    pub backup: String,
    pub target_present: bool,
    pub backup_present: bool,
}

/// The work of a rollback on disk, decided before anything is removed: the
/// files to delete and the backups to move back, each in the order given.
#[derive(Debug)]
pub struct RollbackPlan {
    pub deletions: Vec<FileCheck>,
    pub restores: Vec<BackupCheck>,
}

pub open spec fn file_check_verdict(m: UploadManifest, c: FileCheck) -> Result<bool, Seq<char>> {
    deletion_verdict(m, c.display@, c.present, c.is_dir, opt_view(c.actual))
}

pub open spec fn backup_check_verdict(c: BackupCheck) -> Result<bool, Seq<char>> {
    restore_verdict(c.target_display@, c.target_present, c.backup_present)
}

/// A file observation that was made and passes the rollback's check.
pub open spec fn file_passes(m: UploadManifest, o: Result<FileCheck, StorageError>) -> bool {
    o matches Ok(c) && file_check_verdict(m, c) is Ok
}

/// A backup observation that was made and passes the rollback's check.
pub open spec fn backup_passes(o: Result<BackupCheck, StorageError>) -> bool {
    o matches Ok(c) && backup_check_verdict(c) is Ok
}

/// The error a rollback gives for an observation that fails: the error of
/// making it, or the refusal of its check.
pub open spec fn file_failure(m: UploadManifest, o: Result<FileCheck, StorageError>, e: StorageError) -> bool {
    match o {
        Err(x) => e == x,
        Ok(c) => match file_check_verdict(m, c) {
            Err(msg) => is_refusal(e, msg),
            Ok(_) => false,
        },
    }
}

pub open spec fn backup_failure(o: Result<BackupCheck, StorageError>, e: StorageError) -> bool {
    match o {
        Err(x) => e == x,
        Ok(c) => match backup_check_verdict(c) {
            Err(msg) => is_refusal(e, msg),
            Ok(_) => false,
        },
    }
}

/// The files among the observations that the rollback deletes, in order.
pub open spec fn files_to_delete(m: UploadManifest, s: Seq<Result<FileCheck, StorageError>>) -> Seq<FileCheck>
    decreases s.len(),
{
    if s.len() == 0 {
        Seq::empty()
    } else {
        let prev = files_to_delete(m, s.drop_last());
        match s.last() {
            Ok(c) => if file_check_verdict(m, c) == Ok::<bool, Seq<char>>(true) {
                prev.push(c)
            } else {
                prev
            },
            Err(_) => prev,
        }
    }
}

/// The backups among the observations that the rollback moves back, in order.
pub open spec fn backups_to_restore(s: Seq<Result<BackupCheck, StorageError>>) -> Seq<BackupCheck>
    decreases s.len(),
{
    if s.len() == 0 {
        Seq::empty()
    } else {
        let prev = backups_to_restore(s.drop_last());
        match s.last() {
            Ok(c) => if backup_check_verdict(c) == Ok::<bool, Seq<char>>(true) {
                prev.push(c)
            } else {
                prev
            },
            Err(_) => prev,
        }
    }
}

/// The plan of a rollback from what it found on disk, in the order it looks:
/// every recorded file (newest first), then every backup (newest first).
/// Every check runs before anything is removed: the first observation that
/// could not be made, or whose check refuses, fails the whole rollback, and
/// otherwise the plan holds the files to delete and the backups to restore.
pub fn rollback_plan(
    manifest: &UploadManifest,
    files: Vec<Result<FileCheck, StorageError>>,
    backups: Vec<Result<BackupCheck, StorageError>>,
) -> (r: Result<RollbackPlan, StorageError>)
    ensures
        r is Ok <==> (forall|i: int| 0 <= i < files@.len() ==> #[trigger] file_passes(*manifest, files@[i]))
            && (forall|j: int| 0 <= j < backups@.len() ==> #[trigger] backup_passes(backups@[j])),
        r matches Ok(p) ==> p.deletions@ == files_to_delete(*manifest, files@)
            && p.restores@ == backups_to_restore(backups@),
        forall|k: int|
            0 <= k < files@.len() && !#[trigger] file_passes(*manifest, files@[k])
                && (forall|i: int| 0 <= i < k ==> file_passes(*manifest, files@[i]))
                ==> (r matches Err(e) && file_failure(*manifest, files@[k], e)),
        forall|k: int|
            0 <= k < backups@.len() && !#[trigger] backup_passes(backups@[k])
                && (forall|i: int| 0 <= i < files@.len() ==> file_passes(*manifest, files@[i]))
                && (forall|i: int| 0 <= i < k ==> backup_passes(backups@[i]))
                ==> (r matches Err(e) && backup_failure(backups@[k], e)),
{
    let ghost fs = files@;
    let ghost bs = backups@;
    let mut file_list = files;
    let mut backup_list = backups;
    let mut deletions: Vec<FileCheck> = Vec::new();
    let mut restores: Vec<BackupCheck> = Vec::new();
    let mut i: usize = 0;
    let n = file_list.len();
    while i < n
        invariant
            fs == files@,
            bs == backups@,
            n == fs.len(),
            0 <= i <= n,
            file_list@ == fs.skip(i as int),
            deletions@ == files_to_delete(*manifest, fs.take(i as int)),
            forall|j: int| 0 <= j < i ==> #[trigger] file_passes(*manifest, fs[j]),
        decreases n - i,
    {
        assert(fs.take(i + 1).drop_last() =~= fs.take(i as int));
        assert(fs.take(i + 1).last() == fs[i as int]);
        assert(file_list@[0] == fs[i as int]);
        let o = file_list.remove(0);
        assert(file_list@ =~= fs.skip(i + 1));
        match o {
            Err(e) => {
                assert(!file_passes(*manifest, fs[i as int]));
                assert forall|k2: int|
                    0 <= k2 < fs.len() && !#[trigger] file_passes(*manifest, fs[k2])
                        && (forall|i2: int| 0 <= i2 < k2 ==> file_passes(*manifest, fs[i2])) implies k2 == i by {
                    if k2 < i {
                    } else if k2 > i {
                        assert(file_passes(*manifest, fs[i as int]) == false);
                    }
                }
                return Err(e);
            },
            Ok(c) => {
                match check_deletion(manifest, c.display.as_str(), c.present, c.is_dir, &c.actual) {
                    Err(e) => {
                        assert(!file_passes(*manifest, fs[i as int]));
                        assert forall|k2: int|
                    0 <= k2 < fs.len() && !#[trigger] file_passes(*manifest, fs[k2])
                        && (forall|i2: int| 0 <= i2 < k2 ==> file_passes(*manifest, fs[i2])) implies k2 == i by {
                    if k2 < i {
                    } else if k2 > i {
                        assert(file_passes(*manifest, fs[i as int]) == false);
                    }
                }
                return Err(e);
                    },
                    Ok(delete) => {
                        if delete {
                            deletions.push(c);
                        }
                    },
                }
            },
        }
        i = i + 1;
    }
    assert(fs.take(n as int) =~= fs);
    let mut k: usize = 0;
    let m = backup_list.len();
    while k < m
        invariant
            fs == files@,
            bs == backups@,
            m == bs.len(),
            0 <= k <= m,
            backup_list@ == bs.skip(k as int),
            restores@ == backups_to_restore(bs.take(k as int)),
            forall|j: int| 0 <= j < k ==> #[trigger] backup_passes(bs[j]),
            forall|j: int| 0 <= j < fs.len() ==> #[trigger] file_passes(*manifest, fs[j]),
            deletions@ == files_to_delete(*manifest, fs),
        decreases m - k,
    {
        assert(bs.take(k + 1).drop_last() =~= bs.take(k as int));
        assert(bs.take(k + 1).last() == bs[k as int]);
        assert(backup_list@[0] == bs[k as int]);
        let o = backup_list.remove(0);
        assert(backup_list@ =~= bs.skip(k + 1));
        match o {
            Err(e) => {
                assert(!backup_passes(bs[k as int]));
                assert forall|k2: int|
                    0 <= k2 < bs.len() && !#[trigger] backup_passes(bs[k2])
                        && (forall|i2: int| 0 <= i2 < k2 ==> backup_passes(bs[i2])) implies k2 == k by {
                    if k2 < k {
                    } else if k2 > k {
                        assert(backup_passes(bs[k as int]) == false);
                    }
                }
                return Err(e);
            },
            Ok(c) => {
                match check_restore(c.target_display.as_str(), c.target_present, c.backup_present) {
                    Err(e) => {
                        assert(!backup_passes(bs[k as int]));
                        assert forall|k2: int|
                    0 <= k2 < bs.len() && !#[trigger] backup_passes(bs[k2])
                        && (forall|i2: int| 0 <= i2 < k2 ==> backup_passes(bs[i2])) implies k2 == k by {
                    if k2 < k {
                    } else if k2 > k {
                        assert(backup_passes(bs[k as int]) == false);
                    }
                }
                return Err(e);
                    },
                    Ok(restore) => {
                        if restore {
                            restores.push(c);
                        }
                    },
                }
            },
        }
        k = k + 1;
    }
    assert(bs.take(m as int) =~= bs);
    Ok(RollbackPlan { deletions, restores })
}

/// The kept items of a list: those whose flag, at the same place, is set.
pub open spec fn kept_where(items: Seq<Seq<char>>, flags: Seq<bool>) -> Seq<Seq<char>>
    decreases items.len(),
{
    if items.len() == 0 {
        Seq::empty()
    } else {
        let prev = kept_where(items.drop_last(), flags);
        if flags[items.len() - 1] {
            prev.push(items.last())
        } else {
            prev
        }
    }
}

/// The remote files a rollback reports deleted: of the files it tried to
/// remove, in order, those that were there and were removed.
pub fn removed_files(candidates: &Vec<String>, removed: &Vec<bool>) -> (r: Vec<String>)
    requires
        candidates.len() == removed.len(),
    ensures
        strs(r) == kept_where(strs(*candidates), removed@),
{
    let ghost all = strs(*candidates);
    let mut r: Vec<String> = Vec::new();
    let mut i: usize = 0;
    while i < candidates.len()
        invariant
            candidates.len() == removed.len(),
            all == strs(*candidates),
            0 <= i <= candidates.len(),
            strs(r) == kept_where(all.take(i as int), removed@),
        decreases candidates.len() - i,
    {
        assert(all.take(i + 1).drop_last() =~= all.take(i as int));
        assert(all.take(i + 1).last() == all[i as int]);
        if removed[i] {
            let ghost before = strs(r);
            r.push(candidates[i].clone());
            assert(strs(r) =~= before.push(all[i as int]));
        }
        i = i + 1;
    }
    assert(all.take(candidates.len() as int) =~= all);
    r
}

/// A configuration of FTP publishing switched on.
pub fn enabled_ftp_config(config: &FtpConfig) -> (r: FtpConfig)
    ensures
        r == (FtpConfig { enabled: true, ..*config }),
{
    let mut c = config.clone();
    c.enabled = true;
    c
}

/// A configuration of SFTP publishing switched on.
pub fn enabled_sftp_config(config: &SftpConfig) -> (r: SftpConfig)
    ensures
        r == (SftpConfig { enabled: true, ..*config }),
{
    let mut c = config.clone();
    c.enabled = true;
    c
}

/// Where files on the game server are published or removed.
#[derive(Debug)]
pub enum RemoteAction {
    /// Nothing to do remotely.
    Nothing,
    Ftp(FtpConfig),
    Sftp(SftpConfig),
}

/// How a rollback removes the files published to the game server: nothing
/// when none were; refused in local mode; otherwise over the configured
/// protocol, switched on.
pub fn server_rollback_action(config: &AppConfig, manifest: &UploadManifest) -> (r: Result<RemoteAction, StorageError>)
    ensures
        manifest.server_published_files@.len() == 0 ==> r matches Ok(RemoteAction::Nothing),
        manifest.server_published_files@.len() > 0 ==> match config.storage.server_install_mode {
            ServerInstallMode::Local => r matches Err(e) && is_refusal(
                e,
                "rollback needs the original FTP/SFTP game server mode to remove previously published server files"@,
            ),
            ServerInstallMode::Ftp => r matches Ok(RemoteAction::Ftp(c)) && c == (FtpConfig {
                enabled: true,
                ..config.storage.server_ftp
            }),
            ServerInstallMode::Sftp => r matches Ok(RemoteAction::Sftp(c)) && c == (SftpConfig {
                enabled: true,
                ..config.storage.server_sftp
            }),
        },
{
    if manifest.server_published_files.len() == 0 {
        return Ok(RemoteAction::Nothing);
    }
    match config.storage.server_install_mode {
        ServerInstallMode::Local => Err(
            StorageError::Rejected(
                String::from_str(
                    "rollback needs the original FTP/SFTP game server mode to remove previously published server files",
                ),
            ),
        ),
        ServerInstallMode::Ftp => Ok(RemoteAction::Ftp(enabled_ftp_config(&config.storage.server_ftp))),
        ServerInstallMode::Sftp => Ok(RemoteAction::Sftp(enabled_sftp_config(&config.storage.server_sftp))),
    }
}

/// Why remote FastDL files cannot be removed: files published over FTP or
/// SFTP need that protocol switched on.
pub open spec fn remote_rollback_issue(config: AppConfig, manifest: UploadManifest) -> Option<Seq<char>> {
    if manifest.ftp_published_files@.len() > 0 && !config.storage.ftp.enabled {
        Some("rollback needs FTP enabled to remove previously published FTP files"@)
    } else if manifest.sftp_published_files@.len() > 0 && !config.storage.sftp.enabled {
        Some("rollback needs SFTP enabled to remove previously published SFTP files"@)
    } else {
        None
    }
}

/// Files published to FastDL over FTP or SFTP can only be removed with that
/// protocol switched on.
pub fn remote_rollback_check(config: &AppConfig, manifest: &UploadManifest) -> (r: Result<(), StorageError>)
    ensures
        match remote_rollback_issue(*config, *manifest) {
            Some(m) => r matches Err(e) && is_refusal(e, m),
            None => r is Ok,
        },
{
    if manifest.ftp_published_files.len() > 0 && !config.storage.ftp.enabled {
        return Err(
            StorageError::Rejected(String::from_str("rollback needs FTP enabled to remove previously published FTP files")),
        );
    }
    if manifest.sftp_published_files.len() > 0 && !config.storage.sftp.enabled {
        return Err(
            StorageError::Rejected(String::from_str("rollback needs SFTP enabled to remove previously published SFTP files")),
        );
    }
    Ok(())
}

impl UploadManifest {
    /// Marks an upload rolled back, with what was removed remotely and when.
    /// A rolled-back upload is never touched again: any later rollback of it
    /// ends at once (`rollback_gate` gives `Ok(true)`, with or without force).
    pub fn mark_rolled_back(&mut self, server_deleted: Vec<String>, remote_deleted: RemotePublishResult, at: String)
        ensures
            final(self).status@ == "rolled_back"@,
            final(self).rolled_back_at == Some(at),
            final(self).server_rolled_back_files == server_deleted,
            final(self).ftp_rolled_back_files == remote_deleted.ftp,
            final(self).sftp_rolled_back_files == remote_deleted.sftp,
            *final(self) == (UploadManifest {
                status: final(self).status,
                rolled_back_at: final(self).rolled_back_at,
                server_rolled_back_files: final(self).server_rolled_back_files,
                ftp_rolled_back_files: final(self).ftp_rolled_back_files,
                sftp_rolled_back_files: final(self).sftp_rolled_back_files,
                ..*old(self)
            }),
            forall|force: bool| rollback_gate(final(self).status@, force) == Ok::<bool, Seq<char>>(true),
    {
        self.status = String::from_str("rolled_back");
        self.rolled_back_at = Some(at);
        self.server_rolled_back_files = server_deleted;
        self.ftp_rolled_back_files = remote_deleted.ftp;
        self.sftp_rolled_back_files = remote_deleted.sftp;
    }

    /// Marks a failed install whose files were cleaned up as rolled back.
    pub fn mark_cleaned_up(&mut self, at: String)
        ensures
            final(self).status@ == "rolled_back"@,
            final(self).rolled_back_at == Some(at),
            *final(self) == (UploadManifest {
                status: final(self).status,
                rolled_back_at: final(self).rolled_back_at,
                ..*old(self)
            }),
    {
        self.status = String::from_str("rolled_back");
        self.rolled_back_at = Some(at);
    }

    /// Marks an install whose cleanup failed.
    pub fn mark_failed(&mut self)
        ensures
            final(self).status@ == "failed"@,
            *final(self) == (UploadManifest { status: final(self).status, ..*old(self) }),
    {
        self.status = String::from_str("failed");
    }
}

/// What a rollback removed and restored.
#[derive(Debug)]
pub struct RollbackReport {
    pub upload_id: String,
    pub deleted_files: Vec<String>,
    pub restored_files: Vec<String>,
    pub server_deleted_files: Vec<String>,
    pub ftp_deleted_files: Vec<String>,
    pub sftp_deleted_files: Vec<String>,
}

impl RollbackReport {
    /// The report of a rollback that had nothing left to do.
    pub fn unchanged(upload_id: &str) -> (r: RollbackReport)
        ensures
            r.upload_id@ == upload_id@,
            r.deleted_files@.len() == 0,
            r.restored_files@.len() == 0,
            r.server_deleted_files@.len() == 0,
            r.ftp_deleted_files@.len() == 0,
            r.sftp_deleted_files@.len() == 0,
    {
        RollbackReport {
            upload_id: String::from_str(upload_id),
            deleted_files: Vec::new(),
            restored_files: Vec::new(),
            server_deleted_files: Vec::new(),
            ftp_deleted_files: Vec::new(),
            sftp_deleted_files: Vec::new(),
        }
    }
}

// ---------------------------------------------------------------------------
// Installing staged files
// ---------------------------------------------------------------------------

/// The content type that extraction works with, looked up by id.
pub fn extraction_content_type<'a>(config: &'a AppConfig, content_type_id: &str) -> (r: Result<
    &'a crate::config::ContentTypeConfig,
    StorageError,
>)
    ensures
        match crate::config::content_type_index_spec(config.content_types@, content_type_id@) {
            Some(i) => r matches Ok(c) && *c == config.content_types@[i],
            None => r matches Err(e) && is_refusal(e, "unknown content type: "@ + content_type_id@),
        },
{
    match config.content_type(content_type_id) {
        Some(c) => Ok(c),
        None => Err(StorageError::Rejected(concat2("unknown content type: ", content_type_id))),
    }
}

/// Where an archive entry is extracted: its normalized name, and that name
/// placed under the staging folder.
pub fn extraction_target(
    content_type: &crate::config::ContentTypeConfig,
    staging_dir: &str,
    entry_name: &str,
) -> (r: Result<(String, String), StorageError>)
    ensures
        match crate::validation::normalize_result(entry_name@, content_type.max_depth as int) {
            Ok(p) => r matches Ok((n, t)) && n@ == p && t@ == join_path(staging_dir@, posix_path(p)),
            Err(m) => r matches Err(StorageError::Validation(e)) && crate::validation::is_rejected(e, m),
        },
{
    match crate::validation::normalize_zip_path(entry_name, content_type.max_depth) {
        Ok(n) => {
            let p = path_from_posix(n.as_str());
            let t = join_paths(staging_dir, p.as_str());
            Ok((n, t))
        },
        Err(e) => Err(StorageError::Validation(e)),
    }
}

/// Every accepted entry is extracted inside the staging folder: its target
/// begins with the staging folder's path.
pub proof fn lemma_extraction_in_staging(staging_dir: Seq<char>, raw: Seq<char>, max_depth: int)
    requires
        crate::validation::normalize_result(raw, max_depth) is Ok,
    ensures
        starts_with(
            join_path(staging_dir, posix_path(crate::validation::normalize_result(raw, max_depth)->Ok_0)),
            staging_dir,
        ),
{
    let p = crate::validation::normalize_result(raw, max_depth)->Ok_0;
    lemma_posix_path_relative(p);
    let r = join_path(staging_dir, posix_path(p));
    assert(r.subrange(0, staging_dir.len() as int) =~= staging_dir);
}

/// `Path::starts_with`: the base's components lead the path's.
pub open spec fn path_within(path: Seq<char>, base: Seq<char>) -> bool {
    strip_components(path, base) is Some
}

/// Whether a path lies in a folder: compared in their canonical forms when
/// the path has one (and then the folder must have one too), else as written.
pub open spec fn child_path(
    path: Seq<char>,
    parent: Seq<char>,
    canonical_path: Option<Seq<char>>,
    canonical_parent: Option<Seq<char>>,
) -> bool {
    match canonical_path {
        None => path_within(path, parent),
        Some(p) => match canonical_parent {
            None => false,
            Some(q) => path_within(p, q),
        },
    }
}

/// Whether a path lies in a folder (see `child_path`); the canonical forms
/// are what the file system resolved, where it could.
pub fn is_child_path(
    path: &str,
    parent: &str,
    canonical_path: &Option<String>,
    canonical_parent: &Option<String>,
) -> (r: bool)
    ensures
        r == child_path(path@, parent@, opt_view(*canonical_path), opt_view(*canonical_parent)),
{
    match canonical_path {
        None => strip_prefix_display(path, parent).is_some(),
        Some(p) => match canonical_parent {
            None => false,
            Some(q) => strip_prefix_display(p.as_str(), q.as_str()).is_some(),
        },
    }
}

/// An entry is only extracted into the staging folder.
pub fn check_extraction_inside(normalized: &str, inside: bool) -> (r: Result<(), StorageError>)
    ensures
        inside ==> r is Ok,
        !inside ==> (r matches Err(e) && is_refusal(e, "refusing to extract outside staging: "@ + normalized@)),
{
    if inside {
        Ok(())
    } else {
        Err(StorageError::Rejected(concat2("refusing to extract outside staging: ", normalized)))
    }
}

/// Where a staged file is installed: its relative path under the server root.
pub fn install_target(roots: &StorageRoots, relative: &str) -> (r: String)
    ensures
        r@ == join_path(roots.server@, relative@),
{
    join_paths(roots.server.as_str(), relative)
}

/// Where a compressed copy of a staged file goes: its relative path under the compressed base.
pub fn compressed_target(roots: &StorageRoots, compressed_relative: &str) -> (r: String)
    ensures
        r@ == join_path(
            match roots.fastdl_view() {
                Some(f) => f,
                None => roots.server@,
            },
            compressed_relative@,
        ),
{
    join_paths(roots.compressed_base(), compressed_relative)
}

/// The first of the formats whose compressed copy already exists, when
/// existing files may not be overwritten.
pub open spec fn first_existing_copy(present: Seq<bool>, n: int) -> Option<int>
    decreases n,
{
    if n <= 0 {
        None
    } else {
        match first_existing_copy(present, n - 1) {
            Some(j) => Some(j),
            None => if n - 1 < present.len() && present[n - 1] {
                Some(n - 1)
            } else {
                None
            },
        }
    }
}

/// The verdict before anything is installed, for one staged file: refused
/// when it would go into the application's own folders, or, when existing
/// files may not be overwritten, when it or one of its compressed copies
/// (one flag per configured format, in order) already exists.
pub open spec fn destination_issue(
    config: AppConfig,
    fastdl: bool,
    relative: Seq<char>,
    target_present: bool,
    copies_present: Seq<bool>,
) -> Option<Seq<char>> {
    let formats = config.storage.compressed_formats@;
    match internal_root_issue(relative) {
        Some(m) => Some(m),
        None => if target_present && !config.storage.allow_overwrite {
            Some("destination already exists: "@ + display_of(relative))
        } else if config.storage.allow_overwrite {
            None
        } else {
            match first_existing_copy(copies_present, formats.len() as int) {
                Some(j) => Some(
                    "destination already exists: "@ + compressed_display(
                        fastdl,
                        compressed_relative(relative, formats[j]),
                    ),
                ),
                None => None,
            }
        },
    }
}

/// Checks one staged file before anything is installed (see `destination_issue`).
pub fn check_destination(
    config: &AppConfig,
    roots: &StorageRoots,
    relative: &str,
    target_present: bool,
    copies_present: &Vec<bool>,
) -> (r: Result<(), StorageError>)
    ensures
        match destination_issue(*config, roots.fastdl is Some, relative@, target_present, copies_present@) {
            Some(m) => r matches Err(e) && is_refusal(e, m),
            None => r is Ok,
        },
{
    match validate_internal_root(relative) {
        Ok(()) => {},
        Err(e) => return Err(e),
    }
    if target_present && !config.storage.allow_overwrite {
        let shown = display_path(relative);
        return Err(StorageError::Rejected(concat2("destination already exists: ", shown.as_str())));
    }
    if config.storage.allow_overwrite {
        return Ok(());
    }
    let formats = &config.storage.compressed_formats;
    let mut j: usize = 0;
    while j < formats.len()
        invariant
            0 <= j <= formats.len(),
            formats@ == config.storage.compressed_formats@,
            !config.storage.allow_overwrite,
            !target_present,
            internal_root_issue(relative@) is None,
            first_existing_copy(copies_present@, j as int) is None,
        decreases formats.len() - j,
    {
        if j < copies_present.len() && copies_present[j] {
            proof {
                lemma_first_copy_stays(copies_present@, (j + 1) as int, formats@.len() as int);
            }
            let crel = compressed_relative_path(relative, formats[j]);
            let shown = roots.display_path_for_compressed(crel.as_str());
            return Err(StorageError::Rejected(concat2("destination already exists: ", shown.as_str())));
        }
        j = j + 1;
    }
    Ok(())
}

proof fn lemma_first_copy_stays(present: Seq<bool>, n: int, m: int)
    requires
        0 <= n <= m,
        first_existing_copy(present, n) is Some,
    ensures
        first_existing_copy(present, m) == first_existing_copy(present, n),
    decreases m - n,
{
    if m > n {
        lemma_first_copy_stays(present, n, m - 1);
    }
}

/// What to do with a file that stands where an installed file or copy goes.
#[derive(Debug)]
pub enum BackupAction {
    /// Nothing stands there.
    Keep,
    /// Delete it: backups are switched off.
    Remove,
    /// Move it to this path in the upload's backup folder.
    MoveTo(String),
}

/// Where a file in the way is backed up: under the backups folder, in a
/// folder named by the upload id, at its relative path.
pub open spec fn backup_path_of(roots: StorageRoots, upload_id: Seq<char>, relative: Seq<char>) -> Seq<char> {
    join_path(join_path(roots.backups@, upload_id), relative)
}

/// What to do with a file in the way of an install, given whether one is there.
pub fn backup_action(
    config: &AppConfig,
    roots: &StorageRoots,
    manifest: &UploadManifest,
    relative: &str,
    present: bool,
) -> (r: BackupAction)
    ensures
        !present ==> r is Keep,
        present && !config.storage.backup_existing ==> r is Remove,
        present && config.storage.backup_existing ==> (r matches BackupAction::MoveTo(p) && p@ == backup_path_of(
            *roots,
            manifest.upload_id@,
            relative@,
        )),
{
    if !present {
        return BackupAction::Keep;
    }
    if !config.storage.backup_existing {
        return BackupAction::Remove;
    }
    let folder = join_paths(roots.backups.as_str(), manifest.upload_id.as_str());
    BackupAction::MoveTo(join_paths(folder.as_str(), relative))
}

/// The manifest entry of a file that was moved aside: both paths as display paths.
pub fn backup_entry(roots: &StorageRoots, target: &str, backup_path: &str) -> (r: Result<BackupEntry, StorageError>)
    ensures
        match (target_display(roots.server@, roots.fastdl_view(), target@), target_display(
            roots.server@,
            roots.fastdl_view(),
            backup_path@,
        )) {
            (Ok(t), Ok(b)) => r matches Ok(entry) && entry@ == (t, b),
            (Err(m), _) => r matches Err(e) && is_refusal(e, m),
            (Ok(_), Err(m)) => r matches Err(e) && is_refusal(e, m),
        },
{
    let t = match roots.display_path_for_target(target) {
        Ok(t) => t,
        Err(e) => return Err(e),
    };
    let b = match roots.display_path_for_target(backup_path) {
        Ok(b) => b,
        Err(e) => return Err(e),
    };
    Ok(BackupEntry { target: t, backup: b })
}

/// One step of an install, as shown to the user.
#[derive(Debug)]
pub struct ProgressEvent {
    pub step: String,
    pub message: String,
    pub current: usize,
    pub total: usize,
}

pub fn progress_event(step: &str, message: &str, current: usize, total: usize) -> (r: ProgressEvent)
    ensures
        r.step@ == step@,
        r.message@ == message@,
        r.current == current,
        r.total == total,
{
    ProgressEvent { step: String::from_str(step), message: String::from_str(message), current, total }
}

/// The message while a file is installed.
pub fn installing_message(display: &str) -> (r: String)
    ensures
        r@ == "Installing "@ + display@,
{
    concat2("Installing ", display)
}

/// The message while a compressed copy is written.
pub fn compressing_message(display: &str) -> (r: String)
    ensures
        r@ == "Compressing "@ + display@,
{
    concat2("Compressing ", display)
}

// ---------------------------------------------------------------------------
// Publishing installed files and compressed copies
// ---------------------------------------------------------------------------

/// A file to upload: its local path and its path under the remote root.
#[derive(Debug)]
pub struct UploadFile {
    pub local: String,
    pub remote: String,
}

impl View for UploadFile {
    type V = (Seq<char>, Seq<char>);

    open spec fn view(&self) -> (Seq<char>, Seq<char>) {
        (self.local@, self.remote@)
    }
}

pub open spec fn upload_views(v: Vec<UploadFile>) -> Seq<(Seq<char>, Seq<char>)> {
    v@.map_values(|u: UploadFile| u@)
}

/// The uploads of a list of display paths: each resolved to its local path,
/// with the display path (without `fastdl/` when `strip` is set) as the
/// remote path. The first path that cannot be resolved ends it with its refusal.
pub open spec fn upload_list(
    server: Seq<char>,
    fastdl: Option<Seq<char>>,
    displays: Seq<Seq<char>>,
    strip: bool,
) -> Result<Seq<(Seq<char>, Seq<char>)>, Seq<char>>
    decreases displays.len(),
{
    if displays.len() == 0 {
        Ok(Seq::<(Seq<char>, Seq<char>)>::empty())
    } else {
        match resolve_display(server, fastdl, displays[0]) {
            Err(m) => Err(m),
            Ok(local) => match upload_list(server, fastdl, displays.drop_first(), strip) {
                Err(m) => Err(m),
                Ok(rest) => Ok(
                    seq![(local, if strip { crate::report::without_fastdl(displays[0]) } else { displays[0] })] + rest,
                ),
            },
        }
    }
}

impl StorageRoots {
    /// The uploads of a list of display paths (see `upload_list`).
    pub fn uploads_for(&self, displays: &Vec<String>, strip: bool) -> (r: Result<Vec<UploadFile>, StorageError>)
        ensures
            match upload_list(self.server@, self.fastdl_view(), strs(*displays), strip) {
                Ok(u) => r matches Ok(v) && upload_views(v) == u,
                Err(m) => r matches Err(e) && is_refusal(e, m),
            },
    {
        let ghost all = strs(*displays);
        let mut out: Vec<UploadFile> = Vec::new();
        let mut i: usize = 0;
        assert(all.skip(0) =~= all);
        while i < displays.len()
            invariant
                0 <= i <= displays.len(),
                all == strs(*displays),
                upload_list(self.server@, self.fastdl_view(), all, strip) == match upload_list(
                    self.server@,
                    self.fastdl_view(),
                    all.skip(i as int),
                    strip,
                ) {
                    Ok(rest) => Ok(upload_views(out) + rest),
                    Err(m) => Err(m),
                },
            decreases displays.len() - i,
        {
            assert(all.skip(i as int)[0] == displays@[i as int]@);
            assert(all.skip(i as int).drop_first() =~= all.skip(i + 1));
            let local = match self.resolve_display_path(displays[i].as_str()) {
                Ok(p) => p,
                Err(e) => return Err(e),
            };
            let remote = if strip {
                crate::report::strip_fastdl(displays[i].as_str())
            } else {
                displays[i].clone()
            };
            let ghost before = upload_views(out);
            let ghost item = (local@, remote@);
            out.push(UploadFile { local, remote });
            assert(upload_views(out) =~= before.push(item));
            proof {
                match upload_list(self.server@, self.fastdl_view(), all.skip(i + 1), strip) {
                    Ok(rest) => {
                        assert(before + (seq![item] + rest) =~= before.push(item) + rest);
                    },
                    Err(_) => {},
                }
            }
            i = i + 1;
        }
        assert(all.skip(i as int) =~= Seq::<Seq<char>>::empty());
        assert(upload_views(out) + Seq::<(Seq<char>, Seq<char>)>::empty() =~= upload_views(out));
        Ok(out)
    }
}

/// How installed files reach the game server, and which of them the
/// manifest then records as published there.
#[derive(Debug)]
pub struct ServerPublish {
    pub action: RemoteAction,
    pub files: Vec<UploadFile>,
    pub published: Vec<String>,
}

/// The plan for the game server: every installed file is resolved first;
/// in local mode nothing more happens and nothing is recorded; over FTP or
/// SFTP (switched on) every installed file is sent and recorded.
pub fn server_publish_plan(config: &AppConfig, roots: &StorageRoots, manifest: &UploadManifest) -> (r: Result<
    ServerPublish,
    StorageError,
>)
    ensures
        match upload_list(roots.server@, roots.fastdl_view(), strs(manifest.installed_files), false) {
            Err(m) => r matches Err(e) && is_refusal(e, m),
            Ok(u) => r matches Ok(p) && upload_views(p.files) == u && match config.storage.server_install_mode {
                ServerInstallMode::Local => p.action is Nothing && p.published@.len() == 0,
                ServerInstallMode::Ftp => p.action matches RemoteAction::Ftp(c) && c == (FtpConfig {
                    enabled: true,
                    ..config.storage.server_ftp
                }) && strs(p.published) == strs(manifest.installed_files),
                ServerInstallMode::Sftp => p.action matches RemoteAction::Sftp(c) && c == (SftpConfig {
                    enabled: true,
                    ..config.storage.server_sftp
                }) && strs(p.published) == strs(manifest.installed_files),
            },
        },
{
    let files = match roots.uploads_for(&manifest.installed_files, false) {
        Ok(f) => f,
        Err(e) => return Err(e),
    };
    match config.storage.server_install_mode {
        ServerInstallMode::Local => Ok(ServerPublish { action: RemoteAction::Nothing, files, published: Vec::new() }),
        ServerInstallMode::Ftp => Ok(
            ServerPublish {
                action: RemoteAction::Ftp(enabled_ftp_config(&config.storage.server_ftp)),
                files,
                published: crate::config::clone_strings(&manifest.installed_files),
            },
        ),
        ServerInstallMode::Sftp => Ok(
            ServerPublish {
                action: RemoteAction::Sftp(enabled_sftp_config(&config.storage.server_sftp)),
                files,
                published: crate::config::clone_strings(&manifest.installed_files),
            },
        ),
    }
}

/// The compressed copies to publish to FastDL: each resolved to its local
/// path, sent under its display path without `fastdl/`.
pub fn compressed_uploads(roots: &StorageRoots, manifest: &UploadManifest) -> (r: Result<Vec<UploadFile>, StorageError>)
    ensures
        match upload_list(roots.server@, roots.fastdl_view(), strs(manifest.compressed_files), true) {
            Ok(u) => r matches Ok(v) && upload_views(v) == u,
            Err(m) => r matches Err(e) && is_refusal(e, m),
        },
{
    roots.uploads_for(&manifest.compressed_files, true)
}

/// The remote paths of a list of uploads.
pub open spec fn remote_paths(files: Seq<(Seq<char>, Seq<char>)>) -> Seq<Seq<char>> {
    files.map_values(|u: (Seq<char>, Seq<char>)| u.1)
}

fn remotes_of(files: &Vec<UploadFile>) -> (r: Vec<String>)
    ensures
        strs(r) == remote_paths(upload_views(*files)),
{
    let mut r: Vec<String> = Vec::new();
    let mut i: usize = 0;
    while i < files.len()
        invariant
            0 <= i <= files.len(),
            strs(r) == remote_paths(upload_views(*files)).take(i as int),
        decreases files.len() - i,
    {
        let ghost before = strs(r);
        r.push(files[i].remote.clone());
        assert(strs(r) =~= before.push(files@[i as int].remote@));
        assert(remote_paths(upload_views(*files)).take(i + 1) =~= remote_paths(upload_views(*files)).take(
            i as int,
        ).push(files@[i as int].remote@));
        i = i + 1;
    }
    assert(remote_paths(upload_views(*files)).take(files.len() as int) =~= remote_paths(upload_views(*files)));
    r
}

/// What FastDL publishing records: the copies' remote paths for each protocol that is switched on.
pub fn published_result(config: &AppConfig, files: &Vec<UploadFile>) -> (r: RemotePublishResult)
    ensures
        config.storage.ftp.enabled ==> strs(r.ftp) == remote_paths(upload_views(*files)),
        !config.storage.ftp.enabled ==> r.ftp@.len() == 0,
        config.storage.sftp.enabled ==> strs(r.sftp) == remote_paths(upload_views(*files)),
        !config.storage.sftp.enabled ==> r.sftp@.len() == 0,
{
    let ftp = if config.storage.ftp.enabled {
        remotes_of(files)
    } else {
        Vec::new()
    };
    let sftp = if config.storage.sftp.enabled {
        remotes_of(files)
    } else {
        Vec::new()
    };
    RemotePublishResult { ftp, sftp }
}

impl UploadManifest {
    /// Records the files published to the game server.
    pub fn record_server_published(&mut self, files: Vec<String>)
        ensures
            *final(self) == (UploadManifest { server_published_files: files, ..*old(self) }),
    {
        self.server_published_files = files;
    }

    /// Marks the install complete, with the FastDL files published remotely and when.
    pub fn mark_installed(&mut self, ftp: Vec<String>, sftp: Vec<String>, at: String)
        ensures
            final(self).status@ == "installed"@,
            *final(self) == (UploadManifest {
                status: final(self).status,
                completed_at: Some(at),
                ftp_published_files: ftp,
                sftp_published_files: sftp,
                ..*old(self)
            }),
    {
        self.status = String::from_str("installed");
        self.completed_at = Some(at);
        self.ftp_published_files = ftp;
        self.sftp_published_files = sftp;
    }
}

/// What an install did.
#[derive(Debug)]
pub struct InstallReport {
    pub upload_id: String,
    pub validation: crate::validation::ValidationReport,
    pub installed_files: Vec<String>,
    pub server_published_files: Vec<String>,
    pub compressed_files: Vec<String>,
    pub ftp_published_files: Vec<String>,
    pub sftp_published_files: Vec<String>,
}

impl InstallReport {
    /// The report of a finished install, from its manifest, its validation
    /// and what was published to FastDL.
    pub fn of(
        manifest: UploadManifest,
        validation: crate::validation::ValidationReport,
        published: RemotePublishResult,
    ) -> (r: InstallReport)
        ensures
            r.upload_id == manifest.upload_id,
            r.validation == validation,
            r.installed_files == manifest.installed_files,
            r.server_published_files == manifest.server_published_files,
            r.compressed_files == manifest.compressed_files,
            r.ftp_published_files == published.ftp,
            r.sftp_published_files == published.sftp,
    {
        InstallReport {
            upload_id: manifest.upload_id,
            validation,
            installed_files: manifest.installed_files,
            server_published_files: manifest.server_published_files,
            compressed_files: manifest.compressed_files,
            ftp_published_files: published.ftp,
            sftp_published_files: published.sftp,
        }
    }
}

/// The audit detail of a failed install: the upload id and the error's text.
pub fn failure_detail(upload_id: &str, error: &StorageError) -> (r: String)
    ensures
        r@ == upload_id@ + ": "@ + error.text(),
{
    let text = error.message();
    concat3(upload_id, ": ", text.as_str())
}

/// The refusal when another install or rollback holds the lock.
pub fn install_busy() -> (r: StorageError)
    ensures
        is_refusal(r, "another install or rollback is already running"@),
{
    StorageError::Rejected(String::from_str("another install or rollback is already running"))
}

/// Whether a file in the uploads folder is a manifest: its extension is `json`.
pub fn is_manifest_file(path: &str) -> (r: bool)
    ensures
        r == (crate::paths::path_extension(path@) == Some("json"@)),
{
    let v = chars_of(path);
    let json = chars_of("json");
    match crate::paths::extension_chars(v.as_slice()) {
        Some(e) => crate::text::chars_eq(e.as_slice(), json.as_slice()),
        None => false,
    }
}

// ---------------------------------------------------------------------------
// Orders: staged files by path, manifests newest first
// ---------------------------------------------------------------------------

/// The rank of a component kind in the order of `std::path::Component`.
pub open spec fn kind_rank(k: crate::paths::SegmentKind) -> int {
    match k {
        crate::paths::SegmentKind::Skip => 0,
        crate::paths::SegmentKind::Root => 1,
        crate::paths::SegmentKind::Cur => 2,
        crate::paths::SegmentKind::Parent => 3,
        crate::paths::SegmentKind::Normal => 4,
    }
}

/// The order of two path components: by kind, then by name.
pub open spec fn comp_lt(a: (crate::paths::SegmentKind, Seq<char>), b: (crate::paths::SegmentKind, Seq<char>)) -> bool {
    kind_rank(a.0) < kind_rank(b.0) || (kind_rank(a.0) == kind_rank(b.0) && crate::report::lex_lt(a.1, b.1))
}

/// The order of two component lists: lexicographic.
pub open spec fn comps_lt(
    a: Seq<(crate::paths::SegmentKind, Seq<char>)>,
    b: Seq<(crate::paths::SegmentKind, Seq<char>)>,
) -> bool
    decreases a.len(),
{
    if a.len() == 0 {
        b.len() > 0
    } else if b.len() == 0 {
        false
    } else if a[0] != b[0] {
        comp_lt(a[0], b[0])
    } else {
        comps_lt(a.drop_first(), b.drop_first())
    }
}

/// The order of `Path`: by components.
pub open spec fn path_lt(a: Seq<char>, b: Seq<char>) -> bool {
    comps_lt(crate::paths::components(a), crate::paths::components(b))
}

fn rank_of(k: crate::paths::SegmentKind) -> (r: u8)
    ensures
        r as int == kind_rank(k),
{
    match k {
        crate::paths::SegmentKind::Skip => 0,
        crate::paths::SegmentKind::Root => 1,
        crate::paths::SegmentKind::Cur => 2,
        crate::paths::SegmentKind::Parent => 3,
        crate::paths::SegmentKind::Normal => 4,
    }
}

fn comp_less(a: &crate::paths::PathComponent, b: &crate::paths::PathComponent) -> (r: bool)
    ensures
        r == comp_lt(a@, b@),
{
    let ra = rank_of(a.kind);
    let rb = rank_of(b.kind);
    ra < rb || (ra == rb && crate::report::lex_less(a.text.as_slice(), b.text.as_slice()))
}

fn comp_same(a: &crate::paths::PathComponent, b: &crate::paths::PathComponent) -> (r: bool)
    ensures
        r == (a@ == b@),
{
    a.kind == b.kind && crate::text::chars_eq(a.text.as_slice(), b.text.as_slice())
}

fn comps_less(a: &Vec<crate::paths::PathComponent>, b: &Vec<crate::paths::PathComponent>) -> (r: bool)
    ensures
        r == comps_lt(
            a@.map_values(|c: crate::paths::PathComponent| c@),
            b@.map_values(|c: crate::paths::PathComponent| c@),
        ),
{
    let ghost av = a@.map_values(|c: crate::paths::PathComponent| c@);
    let ghost bv = b@.map_values(|c: crate::paths::PathComponent| c@);
    let mut i: usize = 0;
    assert(av.skip(0) =~= av);
    assert(bv.skip(0) =~= bv);
    while i < a.len() && i < b.len() && comp_same(&a[i], &b[i])
        invariant
            0 <= i <= a.len(),
            i <= b.len(),
            av == a@.map_values(|c: crate::paths::PathComponent| c@),
            bv == b@.map_values(|c: crate::paths::PathComponent| c@),
            comps_lt(av.skip(i as int), bv.skip(i as int)) == comps_lt(av, bv),
        decreases a.len() - i,
    {
        assert(av.skip(i as int).drop_first() =~= av.skip(i + 1));
        assert(bv.skip(i as int).drop_first() =~= bv.skip(i + 1));
        assert(av.skip(i as int)[0] == a@[i as int]@);
        assert(bv.skip(i as int)[0] == b@[i as int]@);
        i = i + 1;
    }
    proof {
        if i < a.len() {
            assert(av.skip(i as int)[0] == a@[i as int]@);
        }
        if i < b.len() {
            assert(bv.skip(i as int)[0] == b@[i as int]@);
        }
    }
    if i == a.len() {
        i < b.len()
    } else if i == b.len() {
        false
    } else {
        comp_less(&a[i], &b[i])
    }
}

/// Whether one path comes before another in the order of `Path`.
pub fn path_less(a: &str, b: &str) -> (r: bool)
    ensures
        r == path_lt(a@, b@),
{
    let av = chars_of(a);
    let bv = chars_of(b);
    let ac = crate::paths::path_components(av.as_slice());
    let bc = crate::paths::path_components(bv.as_slice());
    comps_less(&ac, &bc)
}

/// Inserts a path before the first one it comes before.
pub open spec fn insert_path(s: Seq<Seq<char>>, x: Seq<char>) -> Seq<Seq<char>>
    decreases s.len(),
{
    if s.len() == 0 {
        seq![x]
    } else if path_lt(x, s[0]) {
        seq![x] + s
    } else {
        seq![s[0]] + insert_path(s.drop_first(), x)
    }
}

/// Paths in the order of `Path`, equal ones kept in their order (a stable sort).
pub open spec fn sorted_paths(s: Seq<Seq<char>>) -> Seq<Seq<char>>
    decreases s.len(),
{
    if s.len() == 0 {
        s
    } else {
        insert_path(sorted_paths(s.drop_last()), s.last())
    }
}

proof fn lemma_insert_path_at(s: Seq<Seq<char>>, x: Seq<char>, p: int)
    requires
        0 <= p <= s.len(),
        forall|q: int| 0 <= q < p ==> !path_lt(x, #[trigger] s[q]),
        p < s.len() ==> path_lt(x, s[p]),
    ensures
        insert_path(s, x) == s.take(p) + seq![x] + s.skip(p),
    decreases s.len(),
{
    if s.len() == 0 {
        assert(s.take(p) + seq![x] + s.skip(p) =~= seq![x]);
    } else if p == 0 {
        assert(s.take(0) + seq![x] + s.skip(0) =~= seq![x] + s);
    } else {
        let t = s.drop_first();
        assert forall|q: int| 0 <= q < p - 1 implies !path_lt(x, #[trigger] t[q]) by {
            assert(t[q] == s[q + 1]);
        }
        if p - 1 < t.len() {
            assert(t[p - 1] == s[p]);
        }
        assert(!path_lt(x, s[0]));
        lemma_insert_path_at(t, x, p - 1);
        assert(seq![s[0]] + (t.take(p - 1) + seq![x] + t.skip(p - 1)) =~= s.take(p) + seq![x] + s.skip(p));
    }
}

proof fn lemma_comp_lt_trans(
    a: (crate::paths::SegmentKind, Seq<char>),
    b: (crate::paths::SegmentKind, Seq<char>),
    c: (crate::paths::SegmentKind, Seq<char>),
)
    requires
        comp_lt(a, b),
        comp_lt(b, c),
    ensures
        comp_lt(a, c),
{
    if kind_rank(a.0) == kind_rank(b.0) && kind_rank(b.0) == kind_rank(c.0) {
        crate::report::lemma_lex_trans(a.1, b.1, c.1);
    }
}

proof fn lemma_comp_lt_asym(a: (crate::paths::SegmentKind, Seq<char>), b: (crate::paths::SegmentKind, Seq<char>))
    ensures
        !(comp_lt(a, b) && comp_lt(b, a)),
{
    crate::report::lemma_lex_asym(a.1, b.1);
}

proof fn lemma_comps_trans(
    a: Seq<(crate::paths::SegmentKind, Seq<char>)>,
    b: Seq<(crate::paths::SegmentKind, Seq<char>)>,
    c: Seq<(crate::paths::SegmentKind, Seq<char>)>,
)
    requires
        comps_lt(a, b),
        comps_lt(b, c),
    ensures
        comps_lt(a, c),
    decreases a.len(),
{
    if a.len() > 0 && b.len() > 0 && c.len() > 0 {
        if a[0] != b[0] {
            if b[0] != c[0] {
                lemma_comp_lt_trans(a[0], b[0], c[0]);
                if a[0] == c[0] {
                    lemma_comp_lt_asym(a[0], b[0]);
                }
            }
        } else if b[0] == c[0] {
            lemma_comps_trans(a.drop_first(), b.drop_first(), c.drop_first());
        }
    }
}

proof fn lemma_comps_asym(a: Seq<(crate::paths::SegmentKind, Seq<char>)>, b: Seq<(crate::paths::SegmentKind, Seq<char>)>)
    ensures
        !(comps_lt(a, b) && comps_lt(b, a)),
    decreases a.len(),
{
    if a.len() > 0 && b.len() > 0 {
        if a[0] != b[0] {
            lemma_comp_lt_asym(a[0], b[0]);
        } else {
            lemma_comps_asym(a.drop_first(), b.drop_first());
        }
    }
}

/// The order of paths is a strict order: transitive and asymmetric.
pub proof fn lemma_path_order(a: Seq<char>, b: Seq<char>, c: Seq<char>)
    ensures
        path_lt(a, b) && path_lt(b, c) ==> path_lt(a, c),
        !(path_lt(a, b) && path_lt(b, a)),
{
    let (ca, cb, cc) = (crate::paths::components(a), crate::paths::components(b), crate::paths::components(c));
    if path_lt(a, b) && path_lt(b, c) {
        lemma_comps_trans(ca, cb, cc);
    }
    lemma_comps_asym(ca, cb);
}

/// Paths in order: none comes before one that stands ahead of it.
pub open spec fn is_path_sorted(s: Seq<Seq<char>>) -> bool {
    forall|i: int, j: int| 0 <= i < j < s.len() ==> !path_lt(s[j], s[i])
}

proof fn lemma_insert_path_index(s: Seq<Seq<char>>, x: Seq<char>) -> (p: int)
    ensures
        0 <= p <= s.len(),
        insert_path(s, x) == s.insert(p, x),
    decreases s.len(),
{
    if s.len() == 0 {
        assert(seq![x] =~= s.insert(0, x));
        0
    } else if path_lt(x, s[0]) {
        assert(seq![x] + s =~= s.insert(0, x));
        0
    } else {
        let q = lemma_insert_path_index(s.drop_first(), x);
        assert(seq![s[0]] + s.drop_first().insert(q, x) =~= s.insert(q + 1, x));
        q + 1
    }
}

proof fn lemma_insert_path_sorted(s: Seq<Seq<char>>, x: Seq<char>)
    requires
        is_path_sorted(s),
    ensures
        is_path_sorted(insert_path(s, x)),
    decreases s.len(),
{
    if s.len() == 0 {
    } else if path_lt(x, s[0]) {
        let r = seq![x] + s;
        assert forall|i: int, j: int| 0 <= i < j < r.len() implies !path_lt(r[j], r[i]) by {
            if i == 0 {
                assert(r[j] == s[j - 1]);
                lemma_path_order(s[j - 1], x, s[0]);
                lemma_path_order(x, s[0], x);
            } else {
                assert(r[i] == s[i - 1] && r[j] == s[j - 1]);
            }
        }
    } else {
        let t = s.drop_first();
        assert forall|i: int, j: int| 0 <= i < j < t.len() implies !path_lt(t[j], t[i]) by {
            assert(t[i] == s[i + 1] && t[j] == s[j + 1]);
        }
        lemma_insert_path_sorted(t, x);
        let p = lemma_insert_path_index(t, x);
        let u = t.insert(p, x);
        let r = seq![s[0]] + u;
        assert(insert_path(s, x) == r);
        assert forall|i: int, j: int| 0 <= i < j < r.len() implies !path_lt(r[j], r[i]) by {
            if i == 0 {
                assert(r[j] == u[j - 1]);
                if j - 1 < p {
                    assert(u[j - 1] == t[j - 1]);
                    assert(t[j - 1] == s[j]);
                } else if j - 1 == p {
                    assert(u[j - 1] == x);
                } else {
                    assert(u[j - 1] == t[j - 2]);
                    assert(t[j - 2] == s[j - 1]);
                }
            } else {
                assert(r[i] == u[i - 1] && r[j] == u[j - 1]);
            }
        }
    }
}

/// Sorting staged files keeps every path, once each, and puts them in the
/// order of `Path`.
pub proof fn lemma_sorted_paths(s: Seq<Seq<char>>)
    ensures
        is_path_sorted(sorted_paths(s)),
        sorted_paths(s).to_multiset() == s.to_multiset(),
    decreases s.len(),
{
    if s.len() > 0 {
        let prev = sorted_paths(s.drop_last());
        lemma_sorted_paths(s.drop_last());
        lemma_insert_path_sorted(prev, s.last());
        let p = lemma_insert_path_index(prev, s.last());
        vstd::seq_lib::to_multiset_insert(prev, p, s.last());
        vstd::seq_lib::to_multiset_build(s.drop_last(), s.last());
        assert(s.drop_last().push(s.last()) =~= s);
    }
}

/// Staged files in the order of their paths (`Vec::sort` on paths).
pub fn sort_paths(paths: Vec<String>) -> (r: Vec<String>)
    ensures
        strs(r) == sorted_paths(strs(paths)),
        is_path_sorted(strs(r)),
        strs(r).to_multiset() == strs(paths).to_multiset(),
{
    proof {
        lemma_sorted_paths(strs(paths));
    }
    let ghost all = strs(paths);
    let mut sorted: Vec<String> = Vec::new();
    let mut k: usize = 0;
    while k < paths.len()
        invariant
            0 <= k <= paths.len(),
            all == strs(paths),
            strs(sorted) == sorted_paths(all.take(k as int)),
        decreases paths.len() - k,
    {
        let ghost sv = strs(sorted);
        let x = paths[k].clone();
        let mut p: usize = 0;
        while p < sorted.len() && !path_less(x.as_str(), sorted[p].as_str())
            invariant
                0 <= p <= sorted.len(),
                sv == strs(sorted),
                forall|q: int| 0 <= q < p ==> !path_lt(x@, #[trigger] sv[q]),
            decreases sorted.len() - p,
        {
            p = p + 1;
        }
        proof {
            lemma_insert_path_at(sv, x@, p as int);
            assert(all.take(k + 1).drop_last() =~= all.take(k as int));
            assert(all.take(k + 1).last() == x@);
        }
        let ghost xv = x@;
        sorted.insert(p, x);
        assert(strs(sorted) =~= sv.take(p as int) + seq![xv] + sv.skip(p as int));
        k = k + 1;
    }
    assert(all.take(paths.len() as int) =~= all);
    sorted
}

/// Inserts a manifest before the first one that started earlier.
pub open spec fn insert_newest(s: Seq<UploadManifest>, x: UploadManifest) -> Seq<UploadManifest>
    decreases s.len(),
{
    if s.len() == 0 {
        seq![x]
    } else if crate::report::lex_lt(s[0].started_at@, x.started_at@) {
        seq![x] + s
    } else {
        seq![s[0]] + insert_newest(s.drop_first(), x)
    }
}

/// Manifests by start time, newest first; equal times keep their order (a stable sort).
pub open spec fn newest_first(s: Seq<UploadManifest>) -> Seq<UploadManifest>
    decreases s.len(),
{
    if s.len() == 0 {
        s
    } else {
        insert_newest(newest_first(s.drop_last()), s.last())
    }
}

proof fn lemma_insert_newest_at(s: Seq<UploadManifest>, x: UploadManifest, p: int)
    requires
        0 <= p <= s.len(),
        forall|q: int| 0 <= q < p ==> !crate::report::lex_lt((#[trigger] s[q]).started_at@, x.started_at@),
        p < s.len() ==> crate::report::lex_lt(s[p].started_at@, x.started_at@),
    ensures
        insert_newest(s, x) == s.take(p) + seq![x] + s.skip(p),
    decreases s.len(),
{
    if s.len() == 0 {
        assert(s.take(p) + seq![x] + s.skip(p) =~= seq![x]);
    } else if p == 0 {
        assert(s.take(0) + seq![x] + s.skip(0) =~= seq![x] + s);
    } else {
        let t = s.drop_first();
        assert forall|q: int| 0 <= q < p - 1 implies !crate::report::lex_lt(
            (#[trigger] t[q]).started_at@,
            x.started_at@,
        ) by {
            assert(t[q] == s[q + 1]);
        }
        if p - 1 < t.len() {
            assert(t[p - 1] == s[p]);
        }
        assert(!crate::report::lex_lt(s[0].started_at@, x.started_at@));
        lemma_insert_newest_at(t, x, p - 1);
        assert(seq![s[0]] + (t.take(p - 1) + seq![x] + t.skip(p - 1)) =~= s.take(p) + seq![x] + s.skip(p));
    }
}

/// Manifests in order of their start times, newest first: no manifest
/// started before one that comes after it.
pub open spec fn is_newest_first(s: Seq<UploadManifest>) -> bool {
    forall|i: int, j: int| 0 <= i < j < s.len() ==> !crate::report::lex_lt(s[i].started_at@, s[j].started_at@)
}

/// Where `insert_newest` puts the new manifest.
proof fn lemma_insert_newest_index(s: Seq<UploadManifest>, x: UploadManifest) -> (p: int)
    ensures
        0 <= p <= s.len(),
        insert_newest(s, x) == s.insert(p, x),
    decreases s.len(),
{
    if s.len() == 0 {
        assert(seq![x] =~= s.insert(0, x));
        0
    } else if crate::report::lex_lt(s[0].started_at@, x.started_at@) {
        assert(seq![x] + s =~= s.insert(0, x));
        0
    } else {
        let q = lemma_insert_newest_index(s.drop_first(), x);
        assert(seq![s[0]] + s.drop_first().insert(q, x) =~= s.insert(q + 1, x));
        q + 1
    }
}

proof fn lemma_insert_newest_sorted(s: Seq<UploadManifest>, x: UploadManifest)
    requires
        is_newest_first(s),
    ensures
        is_newest_first(insert_newest(s, x)),
    decreases s.len(),
{
    if s.len() == 0 {
    } else if crate::report::lex_lt(s[0].started_at@, x.started_at@) {
        let r = seq![x] + s;
        assert forall|i: int, j: int| 0 <= i < j < r.len() implies !crate::report::lex_lt(
            r[i].started_at@,
            r[j].started_at@,
        ) by {
            if i == 0 {
                assert(r[j] == s[j - 1]);
                if crate::report::lex_lt(x.started_at@, s[j - 1].started_at@) {
                    crate::report::lemma_lex_trans(s[0].started_at@, x.started_at@, s[j - 1].started_at@);
                    if j - 1 == 0 {
                        crate::report::lemma_lex_irreflexive(s[0].started_at@);
                    }
                }
            } else {
                assert(r[i] == s[i - 1] && r[j] == s[j - 1]);
            }
        }
    } else {
        let t = s.drop_first();
        assert forall|i: int, j: int| 0 <= i < j < t.len() implies !crate::report::lex_lt(
            t[i].started_at@,
            t[j].started_at@,
        ) by {
            assert(t[i] == s[i + 1] && t[j] == s[j + 1]);
        }
        lemma_insert_newest_sorted(t, x);
        let p = lemma_insert_newest_index(t, x);
        let u = t.insert(p, x);
        let r = seq![s[0]] + u;
        assert(insert_newest(s, x) == r);
        assert forall|i: int, j: int| 0 <= i < j < r.len() implies !crate::report::lex_lt(
            r[i].started_at@,
            r[j].started_at@,
        ) by {
            if i == 0 {
                assert(r[j] == u[j - 1]);
                if j - 1 < p {
                    assert(u[j - 1] == t[j - 1]);
                    assert(t[j - 1] == s[j]);
                } else if j - 1 == p {
                    assert(u[j - 1] == x);
                } else {
                    assert(u[j - 1] == t[j - 2]);
                    assert(t[j - 2] == s[j - 1]);
                }
            } else {
                assert(r[i] == u[i - 1] && r[j] == u[j - 1]);
            }
        }
    }
}

/// Listing uploads newest first keeps every manifest, once each, and puts
/// them in order of their start times, newest first.
pub proof fn lemma_newest_first_sorted(s: Seq<UploadManifest>)
    ensures
        is_newest_first(newest_first(s)),
        newest_first(s).to_multiset() == s.to_multiset(),
    decreases s.len(),
{
    if s.len() > 0 {
        let prev = newest_first(s.drop_last());
        lemma_newest_first_sorted(s.drop_last());
        lemma_insert_newest_sorted(prev, s.last());
        let p = lemma_insert_newest_index(prev, s.last());
        vstd::seq_lib::to_multiset_insert(prev, p, s.last());
        vstd::seq_lib::to_multiset_build(s.drop_last(), s.last());
        assert(s.drop_last().push(s.last()) =~= s);
    }
}

fn started_before(a: &UploadManifest, b: &UploadManifest) -> (r: bool)
    ensures
        r == crate::report::lex_lt(a.started_at@, b.started_at@),
{
    let av = chars_of(a.started_at.as_str());
    let bv = chars_of(b.started_at.as_str());
    crate::report::lex_less(av.as_slice(), bv.as_slice())
}

/// Upload manifests newest first, by their start times.
pub fn sort_newest_first(manifests: Vec<UploadManifest>) -> (r: Vec<UploadManifest>)
    ensures
        r@ == newest_first(manifests@),
        is_newest_first(r@),
        r@.to_multiset() == manifests@.to_multiset(),
{
    proof {
        lemma_newest_first_sorted(manifests@);
    }
    let ghost all = manifests@;
    let total: usize = manifests.len();
    assert(all.len() == total);
    let mut rest = manifests;
    let mut sorted: Vec<UploadManifest> = Vec::new();
    let mut k: usize = 0;
    while rest.len() > 0
        invariant
            0 <= k <= all.len(),
            all.len() <= usize::MAX,
            rest@ == all.skip(k as int),
            sorted@ == newest_first(all.take(k as int)),
        decreases rest.len(),
    {
        let x = rest.remove(0);
        let ghost sv = sorted@;
        let mut p: usize = 0;
        while p < sorted.len() && !started_before(&sorted[p], &x)
            invariant
                0 <= p <= sorted.len(),
                sv == sorted@,
                forall|q: int| 0 <= q < p ==> !crate::report::lex_lt((#[trigger] sv[q]).started_at@, x.started_at@),
            decreases sorted.len() - p,
        {
            p = p + 1;
        }
        proof {
            lemma_insert_newest_at(sv, x, p as int);
            assert(all.skip(k as int)[0] == x);
            assert(all.take(k + 1).drop_last() =~= all.take(k as int));
            assert(all.take(k + 1).last() == x);
            assert(all.skip(k as int).drop_first() =~= all.skip(k + 1));
        }
        let ghost xv = x;
        sorted.insert(p, x);
        assert(sorted@ =~= sv.take(p as int) + seq![xv] + sv.skip(p as int));
        k = k + 1;
    }
    assert(all.take(k as int) =~= all);
    sorted
}

// ---------------------------------------------------------------------------
// What validation previews is what an install writes
// ---------------------------------------------------------------------------

/// A piece of a path that `Path::components` reads as an ordinary name.
pub open spec fn plain_piece(p: Seq<char>) -> bool {
    p.len() > 0 && p != seq!['.'] && p != seq!['.', '.'] && !p.contains('/')
}

proof fn lemma_comps_all_normal(parts: Seq<Seq<char>>, n: int)
    requires
        0 <= n <= parts.len(),
        forall|j: int| 0 <= j < parts.len() ==> plain_piece(#[trigger] parts[j]),
    ensures
        crate::paths::comps_upto(parts, n) == Seq::new(
            n as nat,
            |i: int| (crate::paths::SegmentKind::Normal, parts[i]),
        ),
    decreases n,
{
    if n > 0 {
        lemma_comps_all_normal(parts, n - 1);
        assert(plain_piece(parts[n - 1]));
        assert(crate::paths::kind_of(parts[n - 1], n - 1, parts.len() as int) == crate::paths::SegmentKind::Normal);
        assert(crate::paths::comps_upto(parts, n) =~= Seq::new(
            n as nat,
            |i: int| (crate::paths::SegmentKind::Normal, parts[i]),
        ));
    } else {
        assert(crate::paths::comps_upto(parts, n) =~= Seq::new(
            n as nat,
            |i: int| (crate::paths::SegmentKind::Normal, parts[i]),
        ));
    }
}

/// A path made of ordinary names is shown as itself.
proof fn lemma_display_plain(parts: Seq<Seq<char>>)
    requires
        parts.len() >= 1,
        forall|j: int| 0 <= j < parts.len() ==> plain_piece(#[trigger] parts[j]),
    ensures
        display_of(crate::text::join_with(parts, seq!['/'])) == crate::text::join_with(parts, seq!['/']),
{
    let p = crate::text::join_with(parts, seq!['/']);
    assert forall|i: int| 0 <= i < parts.len() implies !(#[trigger] parts[i]).contains('/') by {
        assert(plain_piece(parts[i]));
    }
    crate::text::lemma_split_join(parts, '/');
    lemma_comps_all_normal(parts, parts.len() as int);
    let c = crate::paths::components(p);
    assert(c.map_values(|x: (crate::paths::SegmentKind, Seq<char>)| crate::paths::comp_text(x)) =~= parts);
}

proof fn lemma_join_extend_last(parts: Seq<Seq<char>>, tail: Seq<char>)
    requires
        parts.len() >= 1,
    ensures
        crate::text::join_with(parts.update(parts.len() - 1, parts.last() + tail), seq!['/'])
            == crate::text::join_with(parts, seq!['/']) + tail,
{
    let q = parts.update(parts.len() - 1, parts.last() + tail);
    if parts.len() > 1 {
        assert(q.drop_last() =~= parts.drop_last());
        assert(q.last() == parts.last() + tail);
        assert(crate::text::join_with(q, seq!['/']) =~= crate::text::join_with(parts, seq!['/']) + tail);
    } else {
        assert(q[0] == parts[0] + tail);
    }
}

/// What validation previews as a file's compressed copy is what an install
/// records for it: for every accepted entry, every format, with or without
/// a FastDL root, the display path of the copy that install writes equals
/// the name the validation report lists.
pub proof fn lemma_preview_matches_install(raw: Seq<char>, max_depth: int, format: CompressedFormat, fastdl: bool)
    requires
        crate::paths::normalize_parts(raw, max_depth) is Ok,
    ensures
        ({
            let p = crate::paths::normalized_path(raw, max_depth)->Ok_0;
            &&& display_of(p) == p
            &&& compressed_display(fastdl, compressed_relative(p, format)) == crate::report::compressed_name(
                p,
                format,
                fastdl,
            )
        }),
{
    reveal_strlit(".");
    let parts = crate::paths::normalize_parts(raw, max_depth)->Ok_0;
    crate::paths::lemma_normalized_parts_safe(raw, max_depth);
    assert forall|j: int| 0 <= j < parts.len() implies plain_piece(#[trigger] parts[j]) by {
        assert(crate::paths::is_safe_name(parts[j]));
    }
    let p = crate::text::join_with(parts, seq!['/']);
    lemma_display_plain(parts);
    let tail = "."@ + format_suffix(format);
    let q = parts.update(parts.len() - 1, parts.last() + tail);
    lemma_join_extend_last(parts, tail);
    assert(format_suffix(format).len() > 0) by {
        reveal_strlit("gz");
        reveal_strlit("bz2");
    }
    assert forall|j: int| 0 <= j < q.len() implies plain_piece(#[trigger] q[j]) by {
        if j == q.len() - 1 {
            let x = parts.last() + tail;
            assert(x.len() >= 3);
            assert(plain_piece(parts[j]));
            assert(!x.contains('/')) by {
                if x.contains('/') {
                    let k = choose|k: int| 0 <= k < x.len() && x[k] == '/';
                    if k < parts.last().len() {
                        assert(parts[j][k] == '/');
                    } else if k == parts.last().len() {
                    } else {
                        reveal_strlit("gz");
                        reveal_strlit("bz2");
                    }
                }
            }
            assert(x != seq!['.'] && x != seq!['.', '.']) by {
                if x == seq!['.'] || x == seq!['.', '.'] {
                    assert(x.len() <= 2);
                }
            }
        } else {
            assert(q[j] == parts[j]);
        }
    }
    lemma_display_plain(q);
    assert(compressed_relative(p, format) =~= p + tail);
    assert(crate::report::compressed_name(p, format, fastdl) =~= (if fastdl {
        "fastdl/"@
    } else {
        Seq::<char>::empty()
    }) + (p + tail));
    if !fastdl {
        assert(Seq::<char>::empty() + (p + tail) =~= p + tail);
    }
}

// ---------------------------------------------------------------------------
// The course of an install
// ---------------------------------------------------------------------------

/// The steps of an install, in the order they are taken.
#[derive(Debug, Clone, Copy, PartialEq, Eq, Structural)]
pub enum InstallStep {
    /// Validate the package.
    Validate,
    /// Take the roots and the lock, make the upload id, the staging folder
    /// and the started manifest, and log the start.
    Prepare,
    /// Extract the package into the staging folder.
    Extract,
    /// Move the staged files into place, with their backups and compressed copies.
    InstallFiles,
    /// Publish the installed files to the game server, and record them.
    PublishServer,
    /// Publish the compressed copies to FastDL.
    PublishFastdl,
    /// Mark the manifest installed.
    Finish,
    /// Remove the staging folder (its failure is ignored).
    RemoveStaging,
    /// Log the finished install.
    AuditInstalled,
    /// Undo what the failed install did.
    Cleanup,
    /// Mark the manifest failed, because the cleanup failed.
    MarkFailed,
    /// Write the manifest and log the failure (their failures are ignored).
    RecordFailure,
    /// Done: the install report is given.
    Succeed,
    /// Done: the error is given.
    Fail,
}

/// Where an install stands: the step to take next, and whether a step after
/// the manifest was written has failed.
#[derive(Debug, Clone, Copy, PartialEq, Eq, Structural)]
pub struct InstallFlow {
    pub step: InstallStep,
    pub failed: bool,
}

/// The step after `f`, given whether `f`'s step succeeded.
pub open spec fn next_step(f: InstallFlow, ok: bool) -> InstallFlow {
    match f.step {
        InstallStep::Validate => if ok {
            InstallFlow { step: InstallStep::Prepare, failed: false }
        } else {
            InstallFlow { step: InstallStep::Fail, failed: false }
        },
        InstallStep::Prepare => if ok {
            InstallFlow { step: InstallStep::Extract, failed: false }
        } else {
            InstallFlow { step: InstallStep::Fail, failed: false }
        },
        InstallStep::Extract => if ok {
            InstallFlow { step: InstallStep::InstallFiles, failed: false }
        } else {
            InstallFlow { step: InstallStep::RemoveStaging, failed: true }
        },
        InstallStep::InstallFiles => if ok {
            InstallFlow { step: InstallStep::PublishServer, failed: false }
        } else {
            InstallFlow { step: InstallStep::RemoveStaging, failed: true }
        },
        InstallStep::PublishServer => if ok {
            InstallFlow { step: InstallStep::PublishFastdl, failed: false }
        } else {
            InstallFlow { step: InstallStep::RemoveStaging, failed: true }
        },
        InstallStep::PublishFastdl => if ok {
            InstallFlow { step: InstallStep::Finish, failed: false }
        } else {
            InstallFlow { step: InstallStep::RemoveStaging, failed: true }
        },
        InstallStep::Finish => InstallFlow { step: InstallStep::RemoveStaging, failed: !ok },
        InstallStep::RemoveStaging => if f.failed {
            InstallFlow { step: InstallStep::Cleanup, failed: true }
        } else {
            InstallFlow { step: InstallStep::AuditInstalled, failed: false }
        },
        InstallStep::AuditInstalled => if ok {
            InstallFlow { step: InstallStep::Succeed, failed: false }
        } else {
            InstallFlow { step: InstallStep::Fail, failed: false }
        },
        InstallStep::Cleanup => if ok {
            InstallFlow { step: InstallStep::RecordFailure, failed: true }
        } else {
            InstallFlow { step: InstallStep::MarkFailed, failed: true }
        },
        InstallStep::MarkFailed => InstallFlow { step: InstallStep::RecordFailure, failed: true },
        InstallStep::RecordFailure => InstallFlow { step: InstallStep::Fail, failed: true },
        InstallStep::Succeed => f,
        InstallStep::Fail => f,
    }
}

impl InstallFlow {
    /// An install before its first step.
    pub fn start() -> (r: InstallFlow)
        ensures
            r == (InstallFlow { step: InstallStep::Validate, failed: false }),
    {
        InstallFlow { step: InstallStep::Validate, failed: false }
    }

    /// Whether the install is over.
    pub fn is_done(&self) -> (r: bool)
        ensures
            r == (self.step == InstallStep::Succeed || self.step == InstallStep::Fail),
    {
        self.step == InstallStep::Succeed || self.step == InstallStep::Fail
    }

    /// The step after this one, given whether it succeeded. A failure before
    /// the manifest exists ends the install at once; a failure after it
    /// removes the staging folder, cleans up, records the failure and ends.
    pub fn next(&self, ok: bool) -> (r: InstallFlow)
        ensures
            r == next_step(*self, ok),
    {
        match self.step {
            InstallStep::Validate => if ok {
                InstallFlow { step: InstallStep::Prepare, failed: false }
            } else {
                InstallFlow { step: InstallStep::Fail, failed: false }
            },
            InstallStep::Prepare => if ok {
                InstallFlow { step: InstallStep::Extract, failed: false }
            } else {
                InstallFlow { step: InstallStep::Fail, failed: false }
            },
            InstallStep::Extract => if ok {
                InstallFlow { step: InstallStep::InstallFiles, failed: false }
            } else {
                InstallFlow { step: InstallStep::RemoveStaging, failed: true }
            },
            InstallStep::InstallFiles => if ok {
                InstallFlow { step: InstallStep::PublishServer, failed: false }
            } else {
                InstallFlow { step: InstallStep::RemoveStaging, failed: true }
            },
            InstallStep::PublishServer => if ok {
                InstallFlow { step: InstallStep::PublishFastdl, failed: false }
            } else {
                InstallFlow { step: InstallStep::RemoveStaging, failed: true }
            },
            InstallStep::PublishFastdl => if ok {
                InstallFlow { step: InstallStep::Finish, failed: false }
            } else {
                InstallFlow { step: InstallStep::RemoveStaging, failed: true }
            },
            InstallStep::Finish => InstallFlow { step: InstallStep::RemoveStaging, failed: !ok },
            InstallStep::RemoveStaging => if self.failed {
                InstallFlow { step: InstallStep::Cleanup, failed: true }
            } else {
                InstallFlow { step: InstallStep::AuditInstalled, failed: false }
            },
            InstallStep::AuditInstalled => if ok {
                InstallFlow { step: InstallStep::Succeed, failed: false }
            } else {
                InstallFlow { step: InstallStep::Fail, failed: false }
            },
            InstallStep::Cleanup => if ok {
                InstallFlow { step: InstallStep::RecordFailure, failed: true }
            } else {
                InstallFlow { step: InstallStep::MarkFailed, failed: true }
            },
            InstallStep::MarkFailed => InstallFlow { step: InstallStep::RecordFailure, failed: true },
            InstallStep::RecordFailure => InstallFlow { step: InstallStep::Fail, failed: true },
            InstallStep::Succeed => *self,
            InstallStep::Fail => *self,
        }
    }
}

/// The steps an install takes from `f` when its steps report `outcomes`
/// in turn: `f` itself first, then each step reached.
pub open spec fn flow_steps(f: InstallFlow, outcomes: Seq<bool>) -> Seq<InstallFlow>
    decreases outcomes.len(),
{
    if outcomes.len() == 0 {
        seq![f]
    } else {
        seq![f] + flow_steps(next_step(f, outcomes[0]), outcomes.drop_first())
    }
}

/// Where an install from `f` stands after the outcomes.
pub open spec fn flow_end(f: InstallFlow, outcomes: Seq<bool>) -> InstallFlow {
    flow_steps(f, outcomes).last()
}

/// The steps between the manifest's creation and the end of the staging folder.
pub open spec fn stages_staging(step: InstallStep) -> bool {
    step == InstallStep::Extract || step == InstallStep::InstallFiles || step == InstallStep::PublishServer
        || step == InstallStep::PublishFastdl || step == InstallStep::Finish
}

/// The steps after a failure that follows the manifest's creation.
pub open spec fn in_failure(f: InstallFlow) -> bool {
    (f.failed && f.step == InstallStep::RemoveStaging) || f.step == InstallStep::Cleanup || f.step
        == InstallStep::MarkFailed || f.step == InstallStep::RecordFailure
}

proof fn lemma_flow_len(f: InstallFlow, outcomes: Seq<bool>)
    ensures
        flow_steps(f, outcomes).len() == outcomes.len() + 1,
        flow_steps(f, outcomes)[0] == f,
    decreases outcomes.len(),
{
    if outcomes.len() > 0 {
        lemma_flow_len(next_step(f, outcomes[0]), outcomes.drop_first());
    }
}

proof fn lemma_staging_removed(f: InstallFlow, outcomes: Seq<bool>)
    requires
        stages_staging(f.step),
        !f.failed,
        flow_end(f, outcomes).step == InstallStep::Succeed || flow_end(f, outcomes).step == InstallStep::Fail,
    ensures
        exists|k: int| 0 <= k < flow_steps(f, outcomes).len() && (#[trigger] flow_steps(f, outcomes)[k]).step
            == InstallStep::RemoveStaging,
    decreases outcomes.len(),
{
    lemma_flow_len(f, outcomes);
    if outcomes.len() == 0 {
        assert(flow_end(f, outcomes) == f);
    } else {
        let g = next_step(f, outcomes[0]);
        let rest = outcomes.drop_first();
        lemma_flow_len(g, rest);
        assert(flow_end(f, outcomes) == flow_end(g, rest));
        assert(flow_steps(f, outcomes)[1] == g);
        if g.step == InstallStep::RemoveStaging {
        } else {
            lemma_staging_removed(g, rest);
            let k = choose|k: int| 0 <= k < flow_steps(g, rest).len() && (#[trigger] flow_steps(g, rest)[k]).step
                == InstallStep::RemoveStaging;
            assert(flow_steps(f, outcomes)[k + 1] == flow_steps(g, rest)[k]);
        }
    }
}

/// Once the staging folder exists it is always removed: every install that
/// got past preparing and has ended went through `RemoveStaging`.
pub proof fn lemma_install_removes_staging(outcomes: Seq<bool>)
    requires
        outcomes.len() >= 2,
        outcomes[0],
        outcomes[1],
        flow_end(InstallFlow { step: InstallStep::Validate, failed: false }, outcomes).step == InstallStep::Succeed
            || flow_end(InstallFlow { step: InstallStep::Validate, failed: false }, outcomes).step
            == InstallStep::Fail,
    ensures
        exists|k: int|
            0 <= k < outcomes.len() + 1 && (#[trigger] flow_steps(
                InstallFlow { step: InstallStep::Validate, failed: false },
                outcomes,
            )[k]).step == InstallStep::RemoveStaging,
{
    let f0 = InstallFlow { step: InstallStep::Validate, failed: false };
    let f1 = next_step(f0, outcomes[0]);
    let f2 = next_step(f1, outcomes[1]);
    let rest1 = outcomes.drop_first();
    let rest2 = rest1.drop_first();
    lemma_flow_len(f0, outcomes);
    lemma_flow_len(f1, rest1);
    lemma_flow_len(f2, rest2);
    assert(flow_end(f0, outcomes) == flow_end(f1, rest1));
    assert(flow_end(f1, rest1) == flow_end(f2, rest2));
    lemma_staging_removed(f2, rest2);
    let k = choose|k: int| 0 <= k < flow_steps(f2, rest2).len() && (#[trigger] flow_steps(f2, rest2)[k]).step
        == InstallStep::RemoveStaging;
    assert(flow_steps(f1, rest1)[k + 1] == flow_steps(f2, rest2)[k]);
    assert(flow_steps(f0, outcomes)[k + 2] == flow_steps(f1, rest1)[k + 1]);
}

/// An install succeeds only when every step succeeded: validation,
/// preparing, extraction, installing the files, both kinds of publishing,
/// finishing and the final log entry (only the removal of the staging
/// folder may fail); and it then took exactly those steps in that order.
pub proof fn lemma_install_success(outcomes: Seq<bool>)
    requires
        flow_end(InstallFlow { step: InstallStep::Validate, failed: false }, outcomes).step == InstallStep::Succeed,
    ensures
        outcomes.len() >= 9,
        outcomes[0] && outcomes[1] && outcomes[2] && outcomes[3] && outcomes[4] && outcomes[5] && outcomes[6]
            && outcomes[8],
        flow_steps(InstallFlow { step: InstallStep::Validate, failed: false }, outcomes).take(10).map_values(
            |f: InstallFlow| f.step,
        ) == seq![
            InstallStep::Validate,
            InstallStep::Prepare,
            InstallStep::Extract,
            InstallStep::InstallFiles,
            InstallStep::PublishServer,
            InstallStep::PublishFastdl,
            InstallStep::Finish,
            InstallStep::RemoveStaging,
            InstallStep::AuditInstalled,
            InstallStep::Succeed,
        ],
{
    let f = InstallFlow { step: InstallStep::Validate, failed: false };
    lemma_flow_len(f, outcomes);
    let n = outcomes.len() as int;
    lemma_steps_at(f, outcomes, n);
    assert(flow_end(f, outcomes) == flow_at(f, outcomes, n));
    // Each early step either moves on or falls into the failure steps, which never succeed.
    assert forall|k: int| 0 <= k <= n && #[trigger] flow_at(f, outcomes, k).step == InstallStep::Fail implies flow_at(
        f,
        outcomes,
        n,
    ).step == InstallStep::Fail by {
        lemma_fail_stays(f, outcomes, k, n);
    }
    assert forall|k: int| 0 <= k <= n && in_failure(#[trigger] flow_at(f, outcomes, k)) implies flow_at(
        f,
        outcomes,
        n,
    ).step != InstallStep::Succeed by {
        lemma_failure_stays(f, outcomes, k, n);
    }
    lemma_success_prefix(f, outcomes);
}

/// The step reached after the first `n` outcomes.
pub open spec fn flow_at(f: InstallFlow, outcomes: Seq<bool>, n: int) -> InstallFlow
    decreases n,
{
    if n <= 0 {
        f
    } else {
        next_step(flow_at(f, outcomes, n - 1), outcomes[n - 1])
    }
}

proof fn lemma_steps_at(f: InstallFlow, outcomes: Seq<bool>, n: int)
    requires
        0 <= n <= outcomes.len(),
    ensures
        flow_steps(f, outcomes)[n] == flow_at(f, outcomes, n),
    decreases outcomes.len(),
{
    lemma_flow_len(f, outcomes);
    if n > 0 {
        let g = next_step(f, outcomes[0]);
        lemma_steps_at(g, outcomes.drop_first(), n - 1);
        lemma_flow_len(g, outcomes.drop_first());
        lemma_at_shift(f, outcomes, n);
    }
}

proof fn lemma_at_shift(f: InstallFlow, outcomes: Seq<bool>, n: int)
    requires
        1 <= n <= outcomes.len(),
    ensures
        flow_at(f, outcomes, n) == flow_at(next_step(f, outcomes[0]), outcomes.drop_first(), n - 1),
    decreases n,
{
    let g = next_step(f, outcomes[0]);
    if n > 1 {
        lemma_at_shift(f, outcomes, n - 1);
        assert(outcomes.drop_first()[n - 2] == outcomes[n - 1]);
        assert(flow_at(g, outcomes.drop_first(), n - 1) == next_step(
            flow_at(g, outcomes.drop_first(), n - 2),
            outcomes.drop_first()[n - 2],
        ));
    } else {
        assert(flow_at(f, outcomes, 0) == f);
        assert(flow_at(g, outcomes.drop_first(), 0) == g);
    }
}

proof fn lemma_fail_stays(f: InstallFlow, outcomes: Seq<bool>, k: int, n: int)
    requires
        0 <= k <= n <= outcomes.len(),
        flow_at(f, outcomes, k).step == InstallStep::Fail,
    ensures
        flow_at(f, outcomes, n).step == InstallStep::Fail,
    decreases n - k,
{
    if n > k {
        lemma_fail_stays(f, outcomes, k, n - 1);
    }
}

proof fn lemma_failure_stays(f: InstallFlow, outcomes: Seq<bool>, k: int, n: int)
    requires
        0 <= k <= n <= outcomes.len(),
        in_failure(flow_at(f, outcomes, k)),
    ensures
        in_failure(flow_at(f, outcomes, n)) || flow_at(f, outcomes, n).step == InstallStep::Fail,
    decreases n - k,
{
    if n > k {
        lemma_failure_stays(f, outcomes, k, n - 1);
        if flow_at(f, outcomes, n - 1).step == InstallStep::Fail {
        }
    }
}

proof fn lemma_success_prefix(f: InstallFlow, outcomes: Seq<bool>)
    requires
        f == (InstallFlow { step: InstallStep::Validate, failed: false }),
        flow_at(f, outcomes, outcomes.len() as int).step == InstallStep::Succeed,
        forall|k: int|
            0 <= k <= outcomes.len() && #[trigger] flow_at(f, outcomes, k).step == InstallStep::Fail ==> flow_at(
                f,
                outcomes,
                outcomes.len() as int,
            ).step == InstallStep::Fail,
        forall|k: int|
            0 <= k <= outcomes.len() && in_failure(#[trigger] flow_at(f, outcomes, k)) ==> flow_at(
                f,
                outcomes,
                outcomes.len() as int,
            ).step != InstallStep::Succeed,
    ensures
        outcomes.len() >= 9,
        outcomes[0] && outcomes[1] && outcomes[2] && outcomes[3] && outcomes[4] && outcomes[5] && outcomes[6]
            && outcomes[8],
        flow_steps(f, outcomes).take(10).map_values(|g: InstallFlow| g.step) == seq![
            InstallStep::Validate,
            InstallStep::Prepare,
            InstallStep::Extract,
            InstallStep::InstallFiles,
            InstallStep::PublishServer,
            InstallStep::PublishFastdl,
            InstallStep::Finish,
            InstallStep::RemoveStaging,
            InstallStep::AuditInstalled,
            InstallStep::Succeed,
        ],
{
    let n = outcomes.len() as int;
    lemma_flow_len(f, outcomes);
    // Walk the first ten steps; any other outcome leads to failure or to the end before success.
    assert(flow_at(f, outcomes, 0) == f);
    if n == 0 {
        assert(false);
    }
    assert(flow_at(f, outcomes, 1).step == if outcomes[0] { InstallStep::Prepare } else { InstallStep::Fail });
    assert(outcomes[0]);
    if n == 1 {
        assert(false);
    }
    assert(flow_at(f, outcomes, 2).step == if outcomes[1] { InstallStep::Extract } else { InstallStep::Fail });
    assert(outcomes[1]);
    if n == 2 {
        assert(false);
    }
    assert(outcomes[2]) by {
        if !outcomes[2] {
            assert(in_failure(flow_at(f, outcomes, 3)));
        }
    }
    if n == 3 {
        assert(false);
    }
    assert(outcomes[3]) by {
        if !outcomes[3] {
            assert(in_failure(flow_at(f, outcomes, 4)));
        }
    }
    if n == 4 {
        assert(false);
    }
    assert(outcomes[4]) by {
        if !outcomes[4] {
            assert(in_failure(flow_at(f, outcomes, 5)));
        }
    }
    if n == 5 {
        assert(false);
    }
    assert(outcomes[5]) by {
        if !outcomes[5] {
            assert(in_failure(flow_at(f, outcomes, 6)));
        }
    }
    if n == 6 {
        assert(false);
    }
    assert(outcomes[6]) by {
        if !outcomes[6] {
            assert(in_failure(flow_at(f, outcomes, 7)));
        }
    }
    assert(flow_at(f, outcomes, 7) == (InstallFlow { step: InstallStep::RemoveStaging, failed: false }));
    if n == 7 {
        assert(false);
    }
    assert(flow_at(f, outcomes, 8) == (InstallFlow { step: InstallStep::AuditInstalled, failed: false }));
    if n == 8 {
        assert(false);
    }
    assert(outcomes[8]) by {
        if !outcomes[8] {
            assert(flow_at(f, outcomes, 9).step == InstallStep::Fail);
        }
    }
    assert(flow_at(f, outcomes, 9) == (InstallFlow { step: InstallStep::Succeed, failed: false }));
    let steps = flow_steps(f, outcomes);
    assert forall|k: int| 0 <= k < 10 implies #[trigger] steps[k] == flow_at(f, outcomes, k) by {
        lemma_steps_at(f, outcomes, k);
    }
    assert(steps.take(10).map_values(|g: InstallFlow| g.step) =~= seq![
        InstallStep::Validate,
        InstallStep::Prepare,
        InstallStep::Extract,
        InstallStep::InstallFiles,
        InstallStep::PublishServer,
        InstallStep::PublishFastdl,
        InstallStep::Finish,
        InstallStep::RemoveStaging,
        InstallStep::AuditInstalled,
        InstallStep::Succeed,
    ]);
}

} // verus!
