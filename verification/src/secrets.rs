//! Credentials in platform secret storage: the names they are kept under,
//! whether a write stores or deletes, and, for the Linux Secret Service, how
//! the `secret-tool` helper is called and what its answers mean.
use vstd::prelude::*;
use crate::text::{chars_of, concat2, decimal, decimal_string, string_of, trim, trim_chars};

verus! {

/// Why a credential could not be read, stored or deleted.
#[derive(Debug)]
pub enum SecretError {
    Unavailable,
    LinuxUnavailable,
    Linux(String),
    Windows(u32),
    TooLarge,
}

impl SecretError {
    pub open spec fn text(&self) -> Seq<char> {
        match self {
            SecretError::Unavailable => "secure secret storage is not available on this platform"@,
            SecretError::LinuxUnavailable => "Linux Secret Service is unavailable; install libsecret-tools and make sure the keyring is unlocked"@,
            SecretError::Linux(e) => "Linux Secret Service operation failed: "@ + e@,
            SecretError::Windows(code) => "Windows Credential Manager operation failed with code "@ + decimal(
                *code as nat,
            ),
            SecretError::TooLarge => "secret is too large for Windows Credential Manager"@,
        }
    }

    /// The text shown for this error.
    pub fn message(&self) -> (r: String)
        ensures
            r@ == self.text(),
    {
        match self {
            SecretError::Unavailable => String::from_str("secure secret storage is not available on this platform"),
            SecretError::LinuxUnavailable => String::from_str(
                "Linux Secret Service is unavailable; install libsecret-tools and make sure the keyring is unlocked",
            ),
            SecretError::Linux(e) => concat2("Linux Secret Service operation failed: ", e.as_str()),
            SecretError::Windows(code) => {
                let digits = decimal_string(*code as u64);
                concat2("Windows Credential Manager operation failed with code ", digits.as_str())
            },
            SecretError::TooLarge => String::from_str("secret is too large for Windows Credential Manager"),
        }
    }
}

/// The service every credential of this application is stored under.
pub open spec fn service_name() -> Seq<char> {
    "FastDL Desktop"@
}

/// The name a credential is stored under: the service, `/`, and its own name.
pub fn target_name(name: &str) -> (r: String)
    ensures
        r@ == service_name() + "/"@ + name@,
{
    crate::text::concat3("FastDL Desktop", "/", name)
}

/// What writing a credential does.
#[derive(Debug)]
pub enum SecretWrite {
    Store { target: String, value: String },
    Delete { target: String },
}

/// Writing a credential under a name: a non-empty value is stored, and
/// anything else deletes the stored one.
pub fn write_secret(name: &str, value: Option<&str>) -> (r: SecretWrite)
    ensures
        match value {
            Some(v) => if v@.len() > 0 {
                r matches SecretWrite::Store { target, value: x } && target@ == service_name() + "/"@ + name@
                    && x@ == v@
            } else {
                r matches SecretWrite::Delete { target } && target@ == service_name() + "/"@ + name@
            },
            None => r matches SecretWrite::Delete { target } && target@ == service_name() + "/"@ + name@,
        },
{
    let target = target_name(name);
    match value {
        Some(v) => if !v.is_empty() {
            SecretWrite::Store { target, value: String::from_str(v) }
        } else {
            SecretWrite::Delete { target }
        },
        None => SecretWrite::Delete { target },
    }
}

fn strings2(a: &str, b: &str) -> (r: Vec<String>)
    ensures
        r@.map_values(|s: String| s@) == seq![a@, b@],
{
    let mut r: Vec<String> = Vec::new();
    r.push(String::from_str(a));
    r.push(String::from_str(b));
    assert(r@.map_values(|s: String| s@) =~= seq![a@, b@]);
    r
}

fn push_str_arg(v: &mut Vec<String>, s: &str)
    ensures
        final(v)@.map_values(|x: String| x@) == old(v)@.map_values(|x: String| x@).push(s@),
{
    v.push(String::from_str(s));
    assert(final(v)@.map_values(|x: String| x@) =~= old(v)@.map_values(|x: String| x@).push(s@));
}

/// The `secret-tool` arguments that look a credential up.
pub fn lookup_args(target: &str) -> (r: Vec<String>)
    ensures
        r@.map_values(|s: String| s@) == seq!["lookup"@, "service"@, service_name(), "account"@, target@],
{
    let mut r = strings2("lookup", "service");
    push_str_arg(&mut r, "FastDL Desktop");
    push_str_arg(&mut r, "account");
    push_str_arg(&mut r, target);
    assert(r@.map_values(|s: String| s@) =~= seq!["lookup"@, "service"@, service_name(), "account"@, target@]);
    r
}

/// The `secret-tool` arguments that store a credential (its value goes to the helper's input).
pub fn store_args(target: &str) -> (r: Vec<String>)
    ensures
        r@.map_values(|s: String| s@) == seq![
            "store"@,
            "--label"@,
            service_name() + " "@ + target@,
            "service"@,
            service_name(),
            "account"@,
            target@,
        ],
{
    let mut r = strings2("store", "--label");
    let label = crate::text::concat3("FastDL Desktop", " ", target);
    push_str_arg(&mut r, label.as_str());
    push_str_arg(&mut r, "service");
    push_str_arg(&mut r, "FastDL Desktop");
    push_str_arg(&mut r, "account");
    push_str_arg(&mut r, target);
    assert(r@.map_values(|s: String| s@) =~= seq![
        "store"@,
        "--label"@,
        service_name() + " "@ + target@,
        "service"@,
        service_name(),
        "account"@,
        target@,
    ]);
    r
}

/// The `secret-tool` arguments that delete a credential.
pub fn clear_args(target: &str) -> (r: Vec<String>)
    ensures
        r@.map_values(|s: String| s@) == seq!["clear"@, "service"@, service_name(), "account"@, target@],
{
    let mut r = strings2("clear", "service");
    push_str_arg(&mut r, "FastDL Desktop");
    push_str_arg(&mut r, "account");
    push_str_arg(&mut r, target);
    assert(r@.map_values(|s: String| s@) =~= seq!["clear"@, "service"@, service_name(), "account"@, target@]);
    r
}

/// The text that `String::from_utf8_lossy` makes of some bytes.
pub uninterp spec fn lossy_text(bytes: Seq<u8>) -> Seq<char>;

/// `String::from_utf8_lossy` of std, made an owned `String`: the bytes read
/// as UTF-8 with every invalid sequence replaced by U+FFFD; valid UTF-8 is
/// decoded as it stands.
#[verifier::external_body]
fn utf8_lossy(bytes: &[u8]) -> (r: String)
    ensures
        r@ == lossy_text(bytes@),
        vstd::utf8::valid_utf8(bytes@) ==> r@ == vstd::utf8::decode_utf8(bytes@),
{
    String::from_utf8_lossy(bytes).into_owned()
}

/// How a run of `secret-tool` for a lookup or a deletion ended.
#[derive(Debug)]
pub enum HelperRun {
    /// The helper is not installed.
    NotFound,
    /// It could not be started, for this reason.
    SpawnFailed(String),
    /// It ran: whether it succeeded, its exit code if any, and its output.
    Finished { success: bool, code: Option<i32>, stdout: Vec<u8>, stderr: Vec<u8> },
}

/// How a run of `secret-tool` that stores a credential ended.
#[derive(Debug)]
pub enum StoreRun {
    /// The helper is not installed.
    NotFound,
    /// It could not be started, for this reason.
    SpawnFailed(String),
    /// Its input could not be opened.
    NoInput,
    /// The value could not be written to its input, for this reason.
    WriteFailed(String),
    /// Waiting for it failed, for this reason.
    WaitFailed(String),
    /// It ran: whether it succeeded, and its error output.
    Finished { success: bool, stderr: Vec<u8> },
}

/// The error text of a failed helper run: its error output trimmed, or a
/// fixed text when that is empty.
pub open spec fn command_error_text(stderr: Seq<char>) -> Seq<char> {
    if trim(stderr).len() == 0 {
        "secret-tool returned an error"@
    } else {
        trim(stderr)
    }
}

pub fn command_error(stderr: &str) -> (r: String)
    ensures
        r@ == command_error_text(stderr@),
{
    let v = chars_of(stderr);
    let t = trim_chars(v.as_slice());
    if t.len() == 0 {
        String::from_str("secret-tool returned an error")
    } else {
        string_of(t.as_slice())
    }
}

/// A text without the carriage returns and line feeds that end it.
pub open spec fn trim_line_ends(s: Seq<char>) -> Seq<char>
    decreases s.len(),
{
    if s.len() > 0 && (s.last() == '\r' || s.last() == '\n') {
        trim_line_ends(s.drop_last())
    } else {
        s
    }
}

fn trim_line_ends_of(s: &str) -> (r: String)
    ensures
        r@ == trim_line_ends(s@),
{
    let v = chars_of(s);
    let mut n: usize = v.len();
    assert(v@.take(n as int) =~= v@);
    while n > 0 && (v[n - 1] == '\r' || v[n - 1] == '\n')
        invariant
            0 <= n <= v.len(),
            trim_line_ends(v@.take(n as int)) == trim_line_ends(v@),
        decreases n,
    {
        assert(v@.take(n as int).drop_last() =~= v@.take(n - 1));
        assert(v@.take(n as int).last() == v@[n - 1]);
        n = n - 1;
    }
    assert(v@.take(n as int).len() > 0 ==> v@.take(n as int).last() == v@[n - 1]);
    crate::text::substring(v.as_slice(), 0, n)
}

/// A text made of line ends only.
pub open spec fn only_line_ends(s: Seq<char>) -> bool {
    forall|i: int| 0 <= i < s.len() ==> s[i] == '\r' || s[i] == '\n'
}

proof fn lemma_trim_line_ends_after(value: Seq<char>, ends: Seq<char>)
    requires
        value.len() == 0 || (value.last() != '\r' && value.last() != '\n'),
        only_line_ends(ends),
    ensures
        trim_line_ends(value + ends) == value,
    decreases ends.len(),
{
    if ends.len() == 0 {
        assert(value + ends =~= value);
    } else {
        let e0 = ends.drop_last();
        assert((value + ends).drop_last() =~= value + e0);
        assert((value + ends).last() == ends[ends.len() - 1]);
        lemma_trim_line_ends_after(value, e0);
    }
}

/// A credential reads back as it was stored: when the lookup in secret
/// storage prints the stored text, followed by any line ends, the text that
/// `read_secret` gives is exactly the stored one (which does not itself end
/// in a line end).
pub proof fn lemma_secret_read_back(value: Seq<char>, stdout: Seq<u8>, ends: Seq<char>)
    requires
        value.len() == 0 || (value.last() != '\r' && value.last() != '\n'),
        only_line_ends(ends),
        lossy_text(stdout) == value + ends,
    ensures
        trim_line_ends(lossy_text(stdout)) == value,
{
    lemma_trim_line_ends_after(value, ends);
}

/// The exit code with which `secret-tool` reports a missing credential.
pub open spec fn missing_code() -> i32 {
    1
}

/// Reading a credential, from how the `secret-tool` lookup ended: nothing
/// when the helper is missing or reports the credential missing; its output
/// without the line ends on success; else the helper's error.
pub fn read_secret(run: HelperRun) -> (r: Result<Option<String>, SecretError>)
    ensures
        match run {
            HelperRun::NotFound => r matches Ok(None),
            HelperRun::SpawnFailed(e) => r matches Err(SecretError::Linux(m)) && m@ == e@,
            HelperRun::Finished { success, code, stdout, stderr } => if success {
                r matches Ok(Some(s)) && s@ == trim_line_ends(lossy_text(stdout@))
            } else if code == Some(missing_code()) {
                r matches Ok(None)
            } else {
                r matches Err(SecretError::Linux(m)) && m@ == command_error_text(lossy_text(stderr@))
            },
        },
{
    match run {
        HelperRun::NotFound => Ok(None),
        HelperRun::SpawnFailed(e) => Err(SecretError::Linux(e)),
        HelperRun::Finished { success, code, stdout, stderr } => {
            if success {
                let text = utf8_lossy(stdout.as_slice());
                return Ok(Some(trim_line_ends_of(text.as_str())));
            }
            match code {
                Some(c) => if c == 1 {
                    return Ok(None);
                },
                None => {},
            }
            let text = utf8_lossy(stderr.as_slice());
            Err(SecretError::Linux(command_error(text.as_str())))
        },
    }
}

/// Deleting a credential, from how the `secret-tool` run ended: nothing to
/// do when the helper is missing; done on success or when the credential was
/// missing; else the helper's error.
pub fn delete_secret(run: HelperRun) -> (r: Result<(), SecretError>)
    ensures
        match run {
            HelperRun::NotFound => r is Ok,
            HelperRun::SpawnFailed(e) => r matches Err(SecretError::Linux(m)) && m@ == e@,
            HelperRun::Finished { success, code, stdout, stderr } => if success || code == Some(missing_code()) {
                r is Ok
            } else {
                r matches Err(SecretError::Linux(m)) && m@ == command_error_text(lossy_text(stderr@))
            },
        },
{
    match run {
        HelperRun::NotFound => Ok(()),
        HelperRun::SpawnFailed(e) => Err(SecretError::Linux(e)),
        HelperRun::Finished { success, code, stdout, stderr } => {
            let missing = match code {
                Some(c) => c == 1,
                None => false,
            };
            if success || missing {
                Ok(())
            } else {
                let text = utf8_lossy(stderr.as_slice());
                Err(SecretError::Linux(command_error(text.as_str())))
            }
        },
    }
}

/// What storing did: the Secret Service is unavailable when the helper is
/// missing; each failure along the way is reported with its reason; done on success.
pub fn store_outcome(run: StoreRun) -> (r: Result<(), SecretError>)
    ensures
        match run {
            StoreRun::NotFound => r matches Err(SecretError::LinuxUnavailable),
            StoreRun::SpawnFailed(e) => r matches Err(SecretError::Linux(m)) && m@ == e@,
            StoreRun::NoInput => r matches Err(SecretError::Linux(m)) && m@ == "could not open secret-tool stdin"@,
            StoreRun::WriteFailed(e) => r matches Err(SecretError::Linux(m)) && m@ == e@,
            StoreRun::WaitFailed(e) => r matches Err(SecretError::Linux(m)) && m@ == e@,
            StoreRun::Finished { success, stderr } => if success {
                r is Ok
            } else {
                r matches Err(SecretError::Linux(m)) && m@ == command_error_text(lossy_text(stderr@))
            },
        },
{
    match run {
        StoreRun::NotFound => Err(SecretError::LinuxUnavailable),
        StoreRun::SpawnFailed(e) => Err(SecretError::Linux(e)),
        StoreRun::NoInput => Err(SecretError::Linux(String::from_str("could not open secret-tool stdin"))),
        StoreRun::WriteFailed(e) => Err(SecretError::Linux(e)),
        StoreRun::WaitFailed(e) => Err(SecretError::Linux(e)),
        StoreRun::Finished { success, stderr } => if success {
            Ok(())
        } else {
            let text = utf8_lossy(stderr.as_slice());
            Err(SecretError::Linux(command_error(text.as_str())))
        },
    }
}

// ---------------------------------------------------------------------------
// Windows Credential Manager
// ---------------------------------------------------------------------------

/// The error with which Credential Manager reports a missing credential
/// (`ERROR_NOT_FOUND`).
pub open spec fn credential_missing_code() -> u32 {
    1168
}

/// Reading a credential, from what Credential Manager answered: the stored
/// bytes read as text, nothing when the credential is missing, else the
/// system error.
pub fn credential_read(answer: Result<Vec<u8>, u32>) -> (r: Result<Option<String>, SecretError>)
    ensures
        match answer {
            Ok(bytes) => r matches Ok(Some(s)) && s@ == lossy_text(bytes@),
            Err(code) => if code == credential_missing_code() {
                r matches Ok(None)
            } else {
                r matches Err(SecretError::Windows(c)) && c == code
            },
        },
{
    match answer {
        Ok(bytes) => Ok(Some(utf8_lossy(bytes.as_slice()))),
        Err(code) => if code == 1168 {
            Ok(None)
        } else {
            Err(SecretError::Windows(code))
        },
    }
}

/// The size a stored credential is written with: its length in bytes, which
/// must fit in 32 bits.
pub fn credential_blob_size(len: usize) -> (r: Result<u32, SecretError>)
    ensures
        len <= u32::MAX ==> (r matches Ok(n) && n == len),
        len > u32::MAX ==> r matches Err(SecretError::TooLarge),
{
    if len <= 4294967295usize {
        Ok(len as u32)
    } else {
        Err(SecretError::TooLarge)
    }
}

/// Storing a credential, from what Credential Manager answered: done, or
/// the system error.
pub fn credential_write(answer: Result<(), u32>) -> (r: Result<(), SecretError>)
    ensures
        match answer {
            Ok(()) => r is Ok,
            Err(code) => r matches Err(SecretError::Windows(c)) && c == code,
        },
{
    match answer {
        Ok(()) => Ok(()),
        Err(code) => Err(SecretError::Windows(code)),
    }
}

/// Deleting a credential, from what Credential Manager answered: done when
/// it was deleted or was missing, else the system error.
pub fn credential_delete(answer: Result<(), u32>) -> (r: Result<(), SecretError>)
    ensures
        match answer {
            Ok(()) => r is Ok,
            Err(code) => if code == credential_missing_code() {
                r is Ok
            } else {
                r matches Err(SecretError::Windows(c)) && c == code
            },
        },
{
    match answer {
        Ok(()) => Ok(()),
        Err(code) => if code == 1168 {
            Ok(())
        } else {
            Err(SecretError::Windows(code))
        },
    }
}

} // verus!
