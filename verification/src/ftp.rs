//! FTP publishing: which settings a transfer needs, and how remote paths are
//! split into folders and file names. The transfers themselves happen outside
//! this library.
use vstd::prelude::*;
use crate::config::{FtpConfig};
use crate::text::{
    chars_of, concat2, last_index, last_index_of, replace_char, replace_chars, split_chars,
    split_on, string_of, substring,
};

verus! {

/// Why an FTP transfer could not be made.
#[derive(Debug)]
pub enum FtpPublishError {
    MissingHost,
    MissingUsername,
    MissingPassword,
    MissingRemoteRoot,
    Ftp(String),
    Io(String),
}

impl FtpPublishError {
    pub open spec fn text(&self) -> Seq<char> {
        match self {
            FtpPublishError::MissingHost => "FTP is enabled but host is missing"@,
            FtpPublishError::MissingUsername => "FTP is enabled but username is missing"@,
            FtpPublishError::MissingPassword => "FTP is enabled but password is missing"@,
            FtpPublishError::MissingRemoteRoot => "FTP is enabled but remote FastDL root is missing"@,
            FtpPublishError::Ftp(e) => "FTP operation failed: "@ + e@,
            FtpPublishError::Io(e) => "local file operation failed: "@ + e@,
        }
    }

    /// The text shown for this error.
    pub fn message(&self) -> (r: String)
        ensures
            r@ == self.text(),
    {
        match self {
            FtpPublishError::MissingHost => String::from_str("FTP is enabled but host is missing"),
            FtpPublishError::MissingUsername => String::from_str("FTP is enabled but username is missing"),
            FtpPublishError::MissingPassword => String::from_str("FTP is enabled but password is missing"),
            FtpPublishError::MissingRemoteRoot => String::from_str(
                "FTP is enabled but remote FastDL root is missing",
            ),
            FtpPublishError::Ftp(e) => concat2("FTP operation failed: ", e.as_str()),
            FtpPublishError::Io(e) => concat2("local file operation failed: ", e.as_str()),
        }
    }
}

/// What a login needs.
#[derive(Debug)]
pub struct FtpLogin {
    pub host: String,
    pub port: u16,
    pub username: String,
    pub password: String,
}

/// The login of a configuration, or the first setting it lacks (host, then username, then password).
pub open spec fn login_result(c: FtpConfig) -> Result<(Seq<char>, u16, Seq<char>, Seq<char>), FtpPublishError> {
    match (c.host, c.username, c.password) {
        (None, _, _) => Err(FtpPublishError::MissingHost),
        (Some(_), None, _) => Err(FtpPublishError::MissingUsername),
        (Some(_), Some(_), None) => Err(FtpPublishError::MissingPassword),
        (Some(h), Some(u), Some(p)) => Ok((h@, c.port, u@, p@)),
    }
}

/// Whether `r` answers the login of `c`.
pub open spec fn login_matches(r: Result<FtpLogin, FtpPublishError>, c: FtpConfig) -> bool {
    match login_result(c) {
        Ok((h, port, u, p)) => r matches Ok(l) && l.host@ == h && l.port == port && l.username@ == u && l.password@ == p,
        Err(e) => r matches Err(x) && x == e,
    }
}

/// The host, port and credentials of a connection.
pub fn login(config: &FtpConfig) -> (r: Result<FtpLogin, FtpPublishError>)
    ensures
        login_matches(r, *config),
{
    let host = match &config.host {
        Some(h) => h.clone(),
        None => return Err(FtpPublishError::MissingHost),
    };
    let username = match &config.username {
        Some(u) => u.clone(),
        None => return Err(FtpPublishError::MissingUsername),
    };
    let password = match &config.password {
        Some(p) => p.clone(),
        None => return Err(FtpPublishError::MissingPassword),
    };
    Ok(FtpLogin { host, port: config.port, username, password })
}

/// The remote FastDL root of a configuration.
pub fn remote_root(config: &FtpConfig) -> (r: Result<String, FtpPublishError>)
    ensures
        match config.remote_fastdl_root {
            Some(root) => r matches Ok(s) && s@ == root@,
            None => r matches Err(FtpPublishError::MissingRemoteRoot),
        },
{
    match &config.remote_fastdl_root {
        Some(root) => Ok(root.clone()),
        None => Err(FtpPublishError::MissingRemoteRoot),
    }
}

/// Publishing happens only when FTP is enabled and there are files.
pub open spec fn transfer_wanted(c: FtpConfig, file_count: int) -> bool {
    c.enabled && file_count > 0
}

/// What publishing files needs: nothing to do when FTP is off or there are no
/// files; otherwise the login and the remote root, checked in the order host,
/// username, password, remote root. The transfer itself runs outside this library.
pub fn publish_files(config: &FtpConfig, file_count: usize) -> (r: Result<Option<(FtpLogin, String)>, FtpPublishError>)
    ensures
        !transfer_wanted(*config, file_count as int) ==> r matches Ok(None),
        transfer_wanted(*config, file_count as int) ==> match login_result(*config) {
            Err(e) => r matches Err(x) && x == e,
            Ok((h, port, u, p)) => match config.remote_fastdl_root {
                None => r matches Err(FtpPublishError::MissingRemoteRoot),
                Some(root) => r matches Ok(Some((l, rr))) && l.host@ == h && l.port == port
                    && l.username@ == u && l.password@ == p && rr@ == root@,
            },
        },
{
    if !config.enabled || file_count == 0 {
        return Ok(None);
    }
    let l = match login(config) {
        Ok(l) => l,
        Err(e) => return Err(e),
    };
    let root = match remote_root(config) {
        Ok(r) => r,
        Err(e) => return Err(e),
    };
    Ok(Some((l, root)))
}

/// What deleting files needs: nothing when FTP is off or there are no files;
/// otherwise the remote root first, then the login. The deletions themselves
/// run outside this library.
pub fn delete_files(config: &FtpConfig, file_count: usize) -> (r: Result<Option<(FtpLogin, String)>, FtpPublishError>)
    ensures
        !transfer_wanted(*config, file_count as int) ==> r matches Ok(None),
        transfer_wanted(*config, file_count as int) ==> match config.remote_fastdl_root {
            None => r matches Err(FtpPublishError::MissingRemoteRoot),
            Some(root) => match login_result(*config) {
                Err(e) => r matches Err(x) && x == e,
                Ok((h, port, u, p)) => r matches Ok(Some((l, rr))) && l.host@ == h && l.port == port
                    && l.username@ == u && l.password@ == p && rr@ == root@,
            },
        },
{
    if !config.enabled || file_count == 0 {
        return Ok(None);
    }
    let root = match remote_root(config) {
        Ok(r) => r,
        Err(e) => return Err(e),
    };
    let l = match login(config) {
        Ok(l) => l,
        Err(e) => return Err(e),
    };
    Ok(Some((l, root)))
}

/// The folder a connection test changes into: the remote root, when one is set and not empty.
pub fn test_directory(config: &FtpConfig) -> (r: Option<String>)
    ensures
        match config.remote_fastdl_root {
            Some(root) => if root@.len() > 0 {
                r matches Some(s) && s@ == root@
            } else {
                r is None
            },
            None => r is None,
        },
{
    match &config.remote_fastdl_root {
        Some(root) => if root.as_str().is_empty() {
            None
        } else {
            Some(root.clone())
        },
        None => None,
    }
}

/// What a connection test needs: the login (host, username and password, in
/// that order), and the folder to change into, which is the remote root when
/// one is set and not empty (otherwise the test asks for the current folder).
pub fn test_connection(config: &FtpConfig) -> (r: Result<(FtpLogin, Option<String>), FtpPublishError>)
    ensures
        match login_result(*config) {
            Err(e) => r matches Err(x) && x == e,
            Ok((h, port, u, p)) => r matches Ok((l, dir)) && l.host@ == h && l.port == port && l.username@ == u
                && l.password@ == p && match config.remote_fastdl_root {
                Some(root) => if root@.len() > 0 {
                    dir matches Some(d) && d@ == root@
                } else {
                    dir is None
                },
                None => dir is None,
            },
        },
{
    let l = match login(config) {
        Ok(l) => l,
        Err(e) => return Err(e),
    };
    Ok((l, test_directory(config)))
}

/// A remote path with every backslash turned into `/`.
pub fn normalize_remote_path(relative: &str) -> (r: String)
    ensures
        r@ == replace_char(relative@, '\\', '/'),
{
    let v = chars_of(relative);
    let n = replace_chars(v.as_slice(), '\\', '/');
    string_of(n.as_slice())
}

/// The folder and file name of a remote path, split at its last `/` (`rsplit_once`).
pub fn split_remote_file(path: &str) -> (r: Option<(String, String)>)
    ensures
        match last_index(path@, '/', path@.len() as int) {
            Some(i) => r matches Some((parent, name)) && parent@ == path@.take(i) && name@ == path@.skip(i + 1),
            None => r is None,
        },
{
    let v = chars_of(path);
    match last_index_of(v.as_slice(), '/') {
        Some(i) => {
            assert(last_index(v@, '/', v@.len() as int) is Some);
            assert(i < v.len());
            let parent = substring(v.as_slice(), 0, i);
            let name = substring(v.as_slice(), i + 1, v.len());
            assert(v@.subrange(0, i as int) =~= v@.take(i as int));
            assert(v@.subrange(i + 1, v@.len() as int) =~= v@.skip(i + 1));
            Some((parent, name))
        },
        None => None,
    }
}

/// The first `n` non-empty pieces.
pub open spec fn nonempty_upto(pieces: Seq<Seq<char>>, n: int) -> Seq<Seq<char>>
    decreases n,
{
    if n <= 0 {
        Seq::<Seq<char>>::empty()
    } else if pieces[n - 1].len() > 0 {
        nonempty_upto(pieces, n - 1).push(pieces[n - 1])
    } else {
        nonempty_upto(pieces, n - 1)
    }
}

/// The folder names of a remote path, skipping empty pieces.
pub open spec fn folder_names(path: Seq<char>) -> Seq<Seq<char>> {
    let pieces = split_on(path, '/');
    nonempty_upto(pieces, pieces.len() as int)
}

/// Whether a remote folder path starts at the root, and the folders to walk into, in order.
pub fn remote_dir_parts(path: &str) -> (r: (bool, Vec<String>))
    ensures
        r.0 == (path@.len() > 0 && path@[0] == '/'),
        r.1@.map_values(|s: String| s@) == folder_names(path@),
{
    let v = chars_of(path);
    let pieces = split_chars(v.as_slice(), '/');
    let ghost pv = pieces@.map_values(|x: Vec<char>| x@);
    let mut parts: Vec<String> = Vec::new();
    let mut i: usize = 0;
    while i < pieces.len()
        invariant
            0 <= i <= pieces.len(),
            pv == pieces@.map_values(|x: Vec<char>| x@),
            pv.len() == pieces.len(),
            parts@.map_values(|s: String| s@) == nonempty_upto(pv, i as int),
        decreases pieces.len() - i,
    {
        assert(pv[i as int] == pieces@[i as int]@);
        if pieces[i].len() > 0 {
            let ghost before = parts@.map_values(|s: String| s@);
            parts.push(string_of(pieces[i].as_slice()));
            assert(parts@.map_values(|s: String| s@) =~= before.push(pv[i as int]));
        }
        i = i + 1;
    }
    (v.len() > 0 && v[0] == '/', parts)
}

/// The reply code of a deletion that failed because the file was not there (550).
pub fn is_file_unavailable(code: u32) -> (r: bool)
    ensures
        r == (code == 550),
{
    code == 550
}

} // verus!
