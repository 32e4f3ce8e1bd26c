//! Application configuration: storage roots, remote publishing settings and
//! the per-content-type package rules.
use vstd::prelude::*;
use crate::text::{chars_of, lower, lower_chars, push_char, str_eq, string_of, trim, trim_chars};

verus! {

/// The characters of each string in a list.
pub open spec fn strs(v: Vec<String>) -> Seq<Seq<char>> {
    v@.map_values(|s: String| s@)
}

/// The characters of an optional string.
pub open spec fn opt_view(o: Option<String>) -> Option<Seq<char>> {
    match o {
        Some(s) => Some(s@),
        None => None,
    }
}

#[derive(Debug, Clone)]
pub struct AppConfig {
    pub storage: StorageConfig,
    pub content_types: Vec<ContentTypeConfig>,
}

#[derive(Debug, Clone)]
pub struct StorageConfig {
    pub server_root: String,
    pub server_install_mode: ServerInstallMode,
    pub server_ftp: FtpConfig,
    pub server_sftp: SftpConfig,
    pub fastdl_root: Option<String>,
    pub compressed_formats: Vec<CompressedFormat>,
    pub allow_overwrite: bool,
    pub backup_existing: bool,
    pub ftp: FtpConfig,
    pub sftp: SftpConfig,
}

#[derive(Debug)]
pub struct FtpConfig {
    pub enabled: bool,
    pub host: Option<String>,
    pub port: u16,
    pub username: Option<String>,
    pub password: Option<String>,
    pub remote_fastdl_root: Option<String>,
}

#[derive(Debug)]
pub struct SftpConfig {
    pub enabled: bool,
    pub host: Option<String>,
    pub port: u16,
    pub username: Option<String>,
    pub password: Option<String>,
    pub private_key_path: Option<String>,
    pub private_key_passphrase: Option<String>,
    pub remote_fastdl_root: Option<String>,
    pub trusted_host_fingerprint: Option<String>,
}

#[derive(Debug, Clone, Copy, PartialEq, Eq, Structural)]
pub enum ServerInstallMode {
    Local,
    Ftp,
    Sftp,
}

#[derive(Debug, Clone)]
pub struct ContentTypeConfig {
    pub id: String,
    pub name: String,
    pub max_compressed_bytes: u64,
    pub max_uncompressed_bytes: u64,
    pub max_file_bytes: u64,
    pub max_file_count: usize,
    pub max_depth: usize,
    pub require_lowercase_paths: bool,
    pub required_extensions: Vec<String>,
    pub required_any_extensions: Vec<String>,
    pub allowed_extensions: Vec<String>,
    pub path_rules: Vec<PathRule>,
}

#[derive(Debug, Clone)]
pub struct PathRule {
    pub prefix: String,
    pub extensions: Vec<String>,
}

#[derive(Debug, Clone, Copy, PartialEq, Eq, Structural)]
pub enum CompressedFormat {
    Gz,
    Bz2,
}

/// A copy of an optional string.
pub fn clone_opt(o: &Option<String>) -> (r: Option<String>)
    ensures
        r == *o,
{
    match o {
        Some(s) => Some(s.clone()),
        None => None,
    }
}

/// A copy of a list of strings.
pub fn clone_strings(v: &Vec<String>) -> (r: Vec<String>)
    ensures
        r@ == v@,
{
    let mut r: Vec<String> = Vec::new();
    let mut i: usize = 0;
    while i < v.len()
        invariant
            0 <= i <= v.len(),
            r@ == v@.take(i as int),
        decreases v.len() - i,
    {
        r.push(v[i].clone());
        i = i + 1;
        assert(v@.take(i as int) =~= v@.take((i - 1) as int).push(v@[i - 1]));
    }
    assert(v@.take(v.len() as int) =~= v@);
    r
}

impl Clone for FtpConfig {
    fn clone(&self) -> (r: Self)
        ensures
            r == *self,
    {
        FtpConfig {
            enabled: self.enabled,
            host: clone_opt(&self.host),
            port: self.port,
            username: clone_opt(&self.username),
            password: clone_opt(&self.password),
            remote_fastdl_root: clone_opt(&self.remote_fastdl_root),
        }
    }
}

impl Clone for SftpConfig {
    fn clone(&self) -> (r: Self)
        ensures
            r == *self,
    {
        SftpConfig {
            enabled: self.enabled,
            host: clone_opt(&self.host),
            port: self.port,
            username: clone_opt(&self.username),
            password: clone_opt(&self.password),
            private_key_path: clone_opt(&self.private_key_path),
            private_key_passphrase: clone_opt(&self.private_key_passphrase),
            remote_fastdl_root: clone_opt(&self.remote_fastdl_root),
            trusted_host_fingerprint: clone_opt(&self.trusted_host_fingerprint),
        }
    }
}

impl Default for FtpConfig {
    /// FTP publishing switched off, on the standard port 21.
    fn default() -> (r: Self)
        ensures
            !r.enabled,
            r.host is None,
            r.port == 21,
            r.username is None,
            r.password is None,
            r.remote_fastdl_root is None,
    {
        FtpConfig {
            enabled: false,
            host: None,
            port: 21,
            username: None,
            password: None,
            remote_fastdl_root: None,
        }
    }
}

impl Default for SftpConfig {
    /// SFTP publishing switched off, on the standard port 22, with no trusted host yet.
    fn default() -> (r: Self)
        ensures
            !r.enabled,
            r.host is None,
            r.port == 22,
            r.username is None,
            r.password is None,
            r.private_key_path is None,
            r.private_key_passphrase is None,
            r.remote_fastdl_root is None,
            r.trusted_host_fingerprint is None,
    {
        SftpConfig {
            enabled: false,
            host: None,
            port: 22,
            username: None,
            password: None,
            private_key_path: None,
            private_key_passphrase: None,
            remote_fastdl_root: None,
            trusted_host_fingerprint: None,
        }
    }
}

/// The canonical form of a configured extension: trimmed, ASCII-lowercased
/// and starting with a dot.
pub open spec fn normalized_extension(e: Seq<char>) -> Seq<char> {
    let t = lower(trim(e));
    if t.len() > 0 && t[0] == '.' {
        t
    } else {
        seq!['.'] + t
    }
}

/// Each extension of the list in canonical form.
pub fn normalize_extensions(extensions: &[&str]) -> (r: Vec<String>)
    ensures
        r@.len() == extensions@.len(),
        forall|i: int|
            0 <= i < r@.len() ==> (#[trigger] r@[i])@ == normalized_extension(extensions@[i]@),
{
    let mut r: Vec<String> = Vec::new();
    let mut i: usize = 0;
    while i < extensions.len()
        invariant
            0 <= i <= extensions.len(),
            r@.len() == i,
            forall|j: int| 0 <= j < i ==> (#[trigger] r@[j])@ == normalized_extension(extensions@[j]@),
        decreases extensions.len() - i,
    {
        let raw = chars_of(extensions[i]);
        let t = trim_chars(raw.as_slice());
        let l = lower_chars(t.as_slice());
        let s = if l.len() > 0 && l[0] == '.' {
            string_of(l.as_slice())
        } else {
            let mut s = String::new();
            push_char(&mut s, '.');
            let rest = string_of(l.as_slice());
            s.append(rest.as_str());
            assert(s@ =~= seq!['.'] + l@);
            s
        };
        r.push(s);
        i = i + 1;
    }
    r
}

/// A path rule for a folder and the extensions it accepts.
fn path_rule(prefix: &str, extensions: &[&str]) -> (r: PathRule)
    ensures
        r.prefix@ == prefix@,
        r.extensions@.len() == extensions@.len(),
        forall|i: int|
            0 <= i < r.extensions@.len() ==> (#[trigger] r.extensions@[i])@ == normalized_extension(extensions@[i]@),
{
    PathRule { prefix: String::from_str(prefix), extensions: normalize_extensions(extensions) }
}

/// The list of exactly one string.
fn one_string(s: &str) -> (r: Vec<String>)
    ensures
        strs(r) == seq![s@],
{
    let mut r: Vec<String> = Vec::new();
    r.push(String::from_str(s));
    assert(strs(r) =~= seq![s@]);
    r
}

/// The extensions of a list in canonical form.
pub open spec fn normalized_list(l: Seq<&str>) -> Seq<Seq<char>> {
    l.map_values(|e: &str| normalized_extension(e@))
}

/// Whether a list of strings is the canonical form of the given extensions.
pub open spec fn is_normalized_list(v: Vec<String>, l: Seq<&str>) -> bool {
    strs(v) == normalized_list(l)
}

/// Whether a path rule has the given folder and canonical extensions.
pub open spec fn is_rule(r: PathRule, prefix: &str, exts: Seq<&str>) -> bool {
    r.prefix@ == prefix@ && is_normalized_list(r.extensions, exts)
}

proof fn lemma_rule_view(r: PathRule, prefix: &str, exts: Seq<&str>)
    requires
        r.prefix@ == prefix@,
        r.extensions@.len() == exts.len(),
        forall|i: int| 0 <= i < r.extensions@.len() ==> (#[trigger] r.extensions@[i])@ == normalized_extension(exts[i]@),
    ensures
        is_rule(r, prefix, exts),
{
    assert(strs(r.extensions) =~= normalized_list(exts));
}

proof fn lemma_list_view(v: Vec<String>, exts: Seq<&str>)
    requires
        v@.len() == exts.len(),
        forall|i: int| 0 <= i < v@.len() ==> (#[trigger] v@[i])@ == normalized_extension(exts[i]@),
    ensures
        is_normalized_list(v, exts),
{
    assert(strs(v) =~= normalized_list(exts));
}

/// The rules of the built-in "map" content type.
pub open spec fn is_default_map(c: ContentTypeConfig) -> bool {
    &&& c.id@ == "map"@
    &&& c.name@ == "Map"@
    &&& c.max_compressed_bytes == 256 * 1024 * 1024
    &&& c.max_uncompressed_bytes == 1024 * 1024 * 1024
    &&& c.max_file_bytes == 512 * 1024 * 1024
    &&& c.max_file_count == 500
    &&& c.max_depth == 8
    &&& c.require_lowercase_paths
    &&& strs(c.required_extensions) == seq![".bsp"@]
    &&& c.required_any_extensions@.len() == 0
    &&& is_normalized_list(
        c.allowed_extensions,
        seq![".bsp", ".res", ".txt", ".wad", ".mdl", ".wav", ".mp3", ".spr", ".tga", ".bmp"],
    )
    &&& c.path_rules@.len() == 5
    &&& is_rule(c.path_rules@[0], "maps", seq![".bsp", ".res", ".txt"])
    &&& is_rule(c.path_rules@[1], "models", seq![".mdl"])
    &&& is_rule(c.path_rules@[2], "sound", seq![".wav", ".mp3"])
    &&& is_rule(c.path_rules@[3], "sprites", seq![".spr"])
    &&& is_rule(c.path_rules@[4], "gfx", seq![".tga", ".bmp"])
}

/// The rules of the built-in "sound" content type.
pub open spec fn is_default_sound(c: ContentTypeConfig) -> bool {
    &&& c.id@ == "sound"@
    &&& c.name@ == "Sound"@
    &&& c.max_compressed_bytes == 128 * 1024 * 1024
    &&& c.max_uncompressed_bytes == 512 * 1024 * 1024
    &&& c.max_file_bytes == 128 * 1024 * 1024
    &&& c.max_file_count == 500
    &&& c.max_depth == 8
    &&& c.require_lowercase_paths
    &&& c.required_extensions@.len() == 0
    &&& is_normalized_list(c.required_any_extensions, seq![".wav", ".mp3"])
    &&& is_normalized_list(c.allowed_extensions, seq![".wav", ".mp3"])
    &&& c.path_rules@.len() == 1
    &&& is_rule(c.path_rules@[0], "sound", seq![".wav", ".mp3"])
}

/// The rules of the built-in "sprite" content type.
pub open spec fn is_default_sprite(c: ContentTypeConfig) -> bool {
    &&& c.id@ == "sprite"@
    &&& c.name@ == "Sprite"@
    &&& c.max_compressed_bytes == 128 * 1024 * 1024
    &&& c.max_uncompressed_bytes == 512 * 1024 * 1024
    &&& c.max_file_bytes == 128 * 1024 * 1024
    &&& c.max_file_count == 500
    &&& c.max_depth == 8
    &&& c.require_lowercase_paths
    &&& c.required_extensions@.len() == 0
    &&& is_normalized_list(c.required_any_extensions, seq![".spr"])
    &&& is_normalized_list(c.allowed_extensions, seq![".spr"])
    &&& c.path_rules@.len() == 1
    &&& is_rule(c.path_rules@[0], "sprites", seq![".spr"])
}

/// FTP settings as `FtpConfig::default` gives them.
pub open spec fn is_default_ftp(f: FtpConfig) -> bool {
    !f.enabled && f.host is None && f.port == 21 && f.username is None && f.password is None
        && f.remote_fastdl_root is None
}

/// SFTP settings as `SftpConfig::default` gives them.
pub open spec fn is_default_sftp(f: SftpConfig) -> bool {
    !f.enabled && f.host is None && f.port == 22 && f.username is None && f.password is None
        && f.private_key_path is None && f.private_key_passphrase is None
        && f.remote_fastdl_root is None && f.trusted_host_fingerprint is None
}

/// The configuration that `AppConfig::default` gives.
pub open spec fn is_default_app_config(c: AppConfig) -> bool {
    &&& c.storage.server_root@.len() == 0
    &&& c.storage.server_install_mode == ServerInstallMode::Local
    &&& is_default_ftp(c.storage.server_ftp)
    &&& is_default_sftp(c.storage.server_sftp)
    &&& c.storage.fastdl_root is None
    &&& c.storage.compressed_formats@ == seq![CompressedFormat::Gz]
    &&& !c.storage.allow_overwrite
    &&& c.storage.backup_existing
    &&& is_default_ftp(c.storage.ftp)
    &&& is_default_sftp(c.storage.sftp)
    &&& c.content_types@.len() == 3
    &&& is_default_map(c.content_types@[0])
    &&& is_default_sound(c.content_types@[1])
    &&& is_default_sprite(c.content_types@[2])
}

fn default_map() -> (c: ContentTypeConfig)
    ensures
        is_default_map(c),
{
    let allowed = normalize_extensions(
        &[".bsp", ".res", ".txt", ".wad", ".mdl", ".wav", ".mp3", ".spr", ".tga", ".bmp"],
    );
    proof {
        lemma_list_view(
            allowed,
            seq![".bsp", ".res", ".txt", ".wad", ".mdl", ".wav", ".mp3", ".spr", ".tga", ".bmp"],
        );
    }
    let r0 = path_rule("maps", &[".bsp", ".res", ".txt"]);
    let r1 = path_rule("models", &[".mdl"]);
    let r2 = path_rule("sound", &[".wav", ".mp3"]);
    let r3 = path_rule("sprites", &[".spr"]);
    let r4 = path_rule("gfx", &[".tga", ".bmp"]);
    proof {
        lemma_rule_view(r0, "maps", seq![".bsp", ".res", ".txt"]);
        lemma_rule_view(r1, "models", seq![".mdl"]);
        lemma_rule_view(r2, "sound", seq![".wav", ".mp3"]);
        lemma_rule_view(r3, "sprites", seq![".spr"]);
        lemma_rule_view(r4, "gfx", seq![".tga", ".bmp"]);
    }
    let mut rules: Vec<PathRule> = Vec::new();
    rules.push(r0);
    rules.push(r1);
    rules.push(r2);
    rules.push(r3);
    rules.push(r4);
    ContentTypeConfig {
        id: String::from_str("map"),
        name: String::from_str("Map"),
        max_compressed_bytes: 256 * 1024 * 1024,
        max_uncompressed_bytes: 1024 * 1024 * 1024,
        max_file_bytes: 512 * 1024 * 1024,
        max_file_count: 500,
        max_depth: 8,
        require_lowercase_paths: true,
        required_extensions: one_string(".bsp"),
        required_any_extensions: Vec::new(),
        allowed_extensions: allowed,
        path_rules: rules,
    }
}

fn default_sound() -> (c: ContentTypeConfig)
    ensures
        is_default_sound(c),
{
    let any = normalize_extensions(&[".wav", ".mp3"]);
    let allowed = normalize_extensions(&[".wav", ".mp3"]);
    let r0 = path_rule("sound", &[".wav", ".mp3"]);
    proof {
        lemma_list_view(any, seq![".wav", ".mp3"]);
        lemma_list_view(allowed, seq![".wav", ".mp3"]);
        lemma_rule_view(r0, "sound", seq![".wav", ".mp3"]);
    }
    let mut rules: Vec<PathRule> = Vec::new();
    rules.push(r0);
    ContentTypeConfig {
        id: String::from_str("sound"),
        name: String::from_str("Sound"),
        max_compressed_bytes: 128 * 1024 * 1024,
        max_uncompressed_bytes: 512 * 1024 * 1024,
        max_file_bytes: 128 * 1024 * 1024,
        max_file_count: 500,
        max_depth: 8,
        require_lowercase_paths: true,
        required_extensions: Vec::new(),
        required_any_extensions: any,
        allowed_extensions: allowed,
        path_rules: rules,
    }
}

fn default_sprite() -> (c: ContentTypeConfig)
    ensures
        is_default_sprite(c),
{
    let any = normalize_extensions(&[".spr"]);
    let allowed = normalize_extensions(&[".spr"]);
    let r0 = path_rule("sprites", &[".spr"]);
    proof {
        lemma_list_view(any, seq![".spr"]);
        lemma_list_view(allowed, seq![".spr"]);
        lemma_rule_view(r0, "sprites", seq![".spr"]);
    }
    let mut rules: Vec<PathRule> = Vec::new();
    rules.push(r0);
    ContentTypeConfig {
        id: String::from_str("sprite"),
        name: String::from_str("Sprite"),
        max_compressed_bytes: 128 * 1024 * 1024,
        max_uncompressed_bytes: 512 * 1024 * 1024,
        max_file_bytes: 128 * 1024 * 1024,
        max_file_count: 500,
        max_depth: 8,
        require_lowercase_paths: true,
        required_extensions: Vec::new(),
        required_any_extensions: any,
        allowed_extensions: allowed,
        path_rules: rules,
    }
}

impl Default for AppConfig {
    /// No server root yet, gzip copies only, backups on, no overwriting, remote
    /// publishing off, and the three built-in content types map, sound and sprite.
    fn default() -> (r: Self)
        ensures
            is_default_app_config(r),
    {
        let mut formats: Vec<CompressedFormat> = Vec::new();
        formats.push(CompressedFormat::Gz);
        let mut types: Vec<ContentTypeConfig> = Vec::new();
        types.push(default_map());
        types.push(default_sound());
        types.push(default_sprite());
        let r = AppConfig {
            storage: StorageConfig {
                server_root: String::new(),
                server_install_mode: ServerInstallMode::Local,
                server_ftp: FtpConfig::default(),
                server_sftp: SftpConfig::default(),
                fastdl_root: None,
                compressed_formats: formats,
                allow_overwrite: false,
                backup_existing: true,
                ftp: FtpConfig::default(),
                sftp: SftpConfig::default(),
            },
            content_types: types,
        };
        assert(r.storage.compressed_formats@ =~= seq![CompressedFormat::Gz]);
        r
    }
}

/// The index of the first content type with the given id, if any.
pub open spec fn content_type_index_spec(types: Seq<ContentTypeConfig>, id: Seq<char>) -> Option<int>
    decreases types.len(),
{
    if types.len() == 0 {
        None
    } else {
        match content_type_index_spec(types.drop_last(), id) {
            Some(i) => Some(i),
            None => if types.last().id@ == id {
                Some(types.len() - 1)
            } else {
                None
            },
        }
    }
}

pub proof fn lemma_content_type_index(types: Seq<ContentTypeConfig>, id: Seq<char>)
    ensures
        content_type_index_spec(types, id) matches Some(i) ==> 0 <= i < types.len() && types[i].id@ == id
            && forall|j: int| 0 <= j < i ==> types[j].id@ != id,
        content_type_index_spec(types, id) is None ==> forall|j: int| 0 <= j < types.len() ==> types[j].id@ != id,
    decreases types.len(),
{
    if types.len() > 0 {
        lemma_content_type_index(types.drop_last(), id);
        assert forall|j: int| 0 <= j < types.len() - 1 implies types[j] == types.drop_last()[j] by {}
    }
}

impl AppConfig {
    /// The position of the content type with the given id.
    pub fn content_type_index(&self, id: &str) -> (r: Option<usize>)
        ensures
            r matches Some(i) ==> i < self.content_types@.len() && Some(i as int) == content_type_index_spec(self.content_types@, id@),
            r is None ==> content_type_index_spec(self.content_types@, id@) is None,
    {
        let mut i: usize = 0;
        while i < self.content_types.len()
            invariant
                0 <= i <= self.content_types.len(),
                content_type_index_spec(self.content_types@.take(i as int), id@) is None,
            decreases self.content_types.len() - i,
        {
            let ghost t = self.content_types@.take(i + 1);
            assert(t.drop_last() =~= self.content_types@.take(i as int));
            if str_eq(self.content_types[i].id.as_str(), id) {
                proof {
                    lemma_content_type_index(self.content_types@, id@);
                    lemma_prefix_index(self.content_types@, id@, i as int);
                }
                return Some(i);
            }
            i = i + 1;
        }
        assert(self.content_types@.take(i as int) =~= self.content_types@);
        None
    }

    /// The first content type with the given id.
    pub fn content_type(&self, id: &str) -> (r: Option<&ContentTypeConfig>)
        ensures
            r == (match content_type_index_spec(self.content_types@, id@) {
                Some(i) => Some(&self.content_types@[i]),
                None => None,
            }),
    {
        match self.content_type_index(id) {
            Some(i) => Some(&self.content_types[i]),
            None => None,
        }
    }
}

/// When the first `i` content types do not match and the next one does, it is the first match.
proof fn lemma_prefix_index(types: Seq<ContentTypeConfig>, id: Seq<char>, i: int)
    requires
        0 <= i < types.len(),
        content_type_index_spec(types.take(i), id) is None,
        types[i].id@ == id,
    ensures
        content_type_index_spec(types, id) == Some(i),
    decreases types.len(),
{
    if i < types.len() - 1 {
        assert(types.drop_last().take(i) =~= types.take(i));
        lemma_prefix_index(types.drop_last(), id, i);
    } else {
        assert(types.drop_last() =~= types.take(i));
    }
}

} // verus!
