//! Package validation rules: entry names, extensions, folders, size limits,
//! `.res` resource lists and the validation report.
use vstd::prelude::*;
use crate::config::{content_type_index_spec, strs, AppConfig, ContentTypeConfig, PathRule};
use crate::report::{
    count_by, destination_conflicts, file_paths, is_count_table, kept_compressed, kept_existing,
    largest_files, largest_five, planned_compressed_files, planned_copies, CountItem, FileSummary,
};
use crate::paths::{extension_chars, is_map_res, is_map_res_chars, normalize_path_parts, normalized_path, path_extension, PathIssue};
use crate::text::{
    chars_ends_with, chars_eq, chars_of, chars_starts_with, concat2, concat3, decimal,
    decimal_string, holds, join_chars, join_strings, join_with, list_contains, lower, lower_chars, lower_string,
    push_char, split_chars, split_on, starts_with, ends_with, str_eq, string_of, trim, trim_chars,
};

verus! {

/// Why a package is not accepted.
#[derive(Debug)]
pub enum ValidationError {
    UnknownContentType(String),
    MissingServerRoot,
    OpenPackage(String),
    InvalidZip(String),
    InvalidTar(String),
    Rejected(String),
}

impl ValidationError {
    /// The text shown for this error.
    pub open spec fn text(&self) -> Seq<char> {
        match self {
            ValidationError::UnknownContentType(id) => "unknown content type: "@ + id@,
            ValidationError::MissingServerRoot => "select the server root directory before validating"@,
            ValidationError::OpenPackage(e) => "could not open the package archive: "@ + e@,
            ValidationError::InvalidZip(e) => "file is not a valid ZIP archive: "@ + e@,
            ValidationError::InvalidTar(e) => "file is not a valid TAR archive: "@ + e@,
            ValidationError::Rejected(m) => m@,
        }
    }

    /// The text shown for this error.
    pub fn message(&self) -> (r: String)
        ensures
            r@ == self.text(),
    {
        match self {
            ValidationError::UnknownContentType(id) => concat2("unknown content type: ", id.as_str()),
            ValidationError::MissingServerRoot => String::from_str(
                "select the server root directory before validating",
            ),
            ValidationError::OpenPackage(e) => concat2("could not open the package archive: ", e.as_str()),
            ValidationError::InvalidZip(e) => concat2("file is not a valid ZIP archive: ", e.as_str()),
            ValidationError::InvalidTar(e) => concat2("file is not a valid TAR archive: ", e.as_str()),
            ValidationError::Rejected(m) => m.clone(),
        }
    }
}

/// Whether `r` is a refusal with exactly the text `m`.
pub open spec fn is_rejected(r: ValidationError, m: Seq<char>) -> bool {
    r matches ValidationError::Rejected(t) && t@ == m
}

/// The text of a refusal of the entry name `raw`.
pub open spec fn issue_message(raw: Seq<char>, issue: PathIssue) -> Seq<char> {
    match issue {
        PathIssue::InvalidName => "entry has an empty or invalid name"@,
        PathIssue::Backslash => raw + ": use / as the folder separator"@,
        PathIssue::Absolute => raw + ": absolute paths are not accepted"@,
        PathIssue::Drive => raw + ": drive paths are not accepted"@,
        PathIssue::Traversal => raw + ": path traversal is not accepted"@,
        PathIssue::Colon => raw + ": names containing : are not accepted"@,
        PathIssue::TrailingSpaceOrDot => raw + ": names ending with space/dot are not accepted"@,
        PathIssue::Reserved => raw + ": Windows reserved names are not accepted"@,
        PathIssue::EmptyPath => "entry has an empty path"@,
        PathIssue::TooDeep => raw + ": folder depth exceeds the limit"@,
    }
}

fn issue_text(raw: &str, issue: PathIssue) -> (m: String)
    ensures
        m@ == issue_message(raw@, issue),
{
    match issue {
        PathIssue::InvalidName => String::from_str("entry has an empty or invalid name"),
        PathIssue::Backslash => concat2(raw, ": use / as the folder separator"),
        PathIssue::Absolute => concat2(raw, ": absolute paths are not accepted"),
        PathIssue::Drive => concat2(raw, ": drive paths are not accepted"),
        PathIssue::Traversal => concat2(raw, ": path traversal is not accepted"),
        PathIssue::Colon => concat2(raw, ": names containing : are not accepted"),
        PathIssue::TrailingSpaceOrDot => concat2(raw, ": names ending with space/dot are not accepted"),
        PathIssue::Reserved => concat2(raw, ": Windows reserved names are not accepted"),
        PathIssue::EmptyPath => String::from_str("entry has an empty path"),
        PathIssue::TooDeep => concat2(raw, ": folder depth exceeds the limit"),
    }
}

/// The result of normalizing an entry name, with the refusal text of a refused one.
pub open spec fn normalize_result(raw: Seq<char>, max_depth: int) -> Result<Seq<char>, Seq<char>> {
    match normalized_path(raw, max_depth) {
        Ok(p) => Ok(p),
        Err(e) => Err(issue_message(raw, e)),
    }
}

/// The safe, `/`-joined form of a package entry name, or why it is refused:
/// empty names or NUL, backslashes, absolute and drive paths, traversal,
/// names with `:`, names ending with a space or dot, Windows reserved names,
/// empty paths and paths deeper than `max_depth`.
pub fn normalize_zip_path(raw_name: &str, max_depth: usize) -> (r: Result<String, ValidationError>)
    ensures
        match normalize_result(raw_name@, max_depth as int) {
            Ok(p) => r matches Ok(s) && s@ == p,
            Err(m) => r matches Err(e) && is_rejected(e, m),
        },
{
    let raw = chars_of(raw_name);
    match normalize_path_parts(raw.as_slice(), max_depth) {
        Ok(parts) => {
            let joined = join_chars(&parts, '/');
            Ok(string_of(joined.as_slice()))
        },
        Err(issue) => Err(ValidationError::Rejected(issue_text(raw_name, issue))),
    }
}

/// A path refused for upper-case letters, when the content type asks for lowercase paths.
pub open spec fn entry_path_result(path: Seq<char>, lowercase_only: bool) -> Result<(), Seq<char>> {
    if lowercase_only && path != lower(path) {
        Err(path + ": path must be lowercase"@)
    } else {
        Ok(())
    }
}

pub fn validate_entry_path(path: &str, content_type: &ContentTypeConfig) -> (r: Result<(), ValidationError>)
    ensures
        match entry_path_result(path@, content_type.require_lowercase_paths) {
            Ok(()) => r is Ok,
            Err(m) => r matches Err(e) && is_rejected(e, m),
        },
{
    if content_type.require_lowercase_paths {
        let l = lower_string(path);
        if !str_eq(path, l.as_str()) {
            return Err(ValidationError::Rejected(concat2(path, ": path must be lowercase")));
        }
    }
    Ok(())
}

/// The extension of a path as a lowercase `.ext`, or the refusal of a path without one.
pub open spec fn extension_result(path: Seq<char>) -> Result<Seq<char>, Seq<char>> {
    match path_extension(path) {
        Some(e) => Ok(seq!['.'] + lower(e)),
        None => Err(path + ": file has no extension"@),
    }
}

pub fn extension_of(path: &str) -> (r: Result<String, ValidationError>)
    ensures
        match extension_result(path@) {
            Ok(x) => r matches Ok(s) && s@ == x,
            Err(m) => r matches Err(e) && is_rejected(e, m),
        },
{
    let p = chars_of(path);
    match extension_chars(p.as_slice()) {
        Some(e) => {
            let l = lower_chars(e.as_slice());
            let mut s = String::new();
            push_char(&mut s, '.');
            let rest = string_of(l.as_slice());
            s.append(rest.as_str());
            assert(s@ =~= seq!['.'] + lower(e@));
            Ok(s)
        },
        None => Err(ValidationError::Rejected(concat2(path, ": file has no extension"))),
    }
}

/// The kinds of package archive.
#[derive(Debug, Clone, Copy, PartialEq, Eq, Structural)]
pub enum ArchiveKind {
    Zip,
    Tar,
    TarGz,
    TarBz2,
}

/// The archive kind named by a package file name, compared without regard to ASCII case.
pub open spec fn archive_kind_of(file_name: Seq<char>) -> Option<ArchiveKind> {
    let n = lower(file_name);
    if ends_with(n, ".zip"@) {
        Some(ArchiveKind::Zip)
    } else if ends_with(n, ".tar"@) {
        Some(ArchiveKind::Tar)
    } else if ends_with(n, ".tar.gz"@) || ends_with(n, ".tgz"@) {
        Some(ArchiveKind::TarGz)
    } else if ends_with(n, ".tar.bz2"@) || ends_with(n, ".tbz2"@) {
        Some(ArchiveKind::TarBz2)
    } else {
        None
    }
}

fn name_ends_with(n: &[char], suffix: &str) -> (r: bool)
    ensures
        r == ends_with(n@, suffix@),
{
    let s = chars_of(suffix);
    chars_ends_with(n, s.as_slice())
}

/// The archive kind of a package, from the final component of its path.
pub fn archive_kind(file_name: &str) -> (r: Result<ArchiveKind, ValidationError>)
    ensures
        match archive_kind_of(file_name@) {
            Some(k) => r == Ok::<ArchiveKind, ValidationError>(k),
            None => r matches Err(e) && is_rejected(
                e,
                "unsupported archive format; use .zip, .tar, .tar.gz, .tgz, .tar.bz2, or .tbz2"@,
            ),
        },
{
    let raw = chars_of(file_name);
    let n = lower_chars(raw.as_slice());
    if name_ends_with(n.as_slice(), ".zip") {
        return Ok(ArchiveKind::Zip);
    }
    if name_ends_with(n.as_slice(), ".tar") {
        return Ok(ArchiveKind::Tar);
    }
    if name_ends_with(n.as_slice(), ".tar.gz") || name_ends_with(n.as_slice(), ".tgz") {
        return Ok(ArchiveKind::TarGz);
    }
    if name_ends_with(n.as_slice(), ".tar.bz2") || name_ends_with(n.as_slice(), ".tbz2") {
        return Ok(ArchiveKind::TarBz2);
    }
    Err(
        ValidationError::Rejected(
            String::from_str(
                "unsupported archive format; use .zip, .tar, .tar.gz, .tgz, .tar.bz2, or .tbz2",
            ),
        ),
    )
}

/// A ZIP entry whose Unix mode marks it as a symbolic link.
pub fn is_zip_symlink(unix_mode: Option<u32>) -> (r: bool)
    ensures
        r == (unix_mode matches Some(m) && m & 0o170000 == 0o120000),
{
    match unix_mode {
        Some(m) => m & 0o170000 == 0o120000,
        None => false,
    }
}

/// Whether a path rule admits a file with this path and extension.
pub open spec fn rule_admits(rule: PathRule, path: Seq<char>, ext: Seq<char>) -> bool {
    &&& holds(strs(rule.extensions), ext)
    &&& (rule.prefix@.len() == 0 || path == rule.prefix@ || starts_with(path, rule.prefix@ + seq!['/']))
}

/// Whether the content type's folder rules admit a file with this path and extension.
pub open spec fn rules_admit(rules: Seq<PathRule>, path: Seq<char>, ext: Seq<char>) -> bool {
    rules.len() == 0 || exists|i: int| 0 <= i < rules.len() && rule_admits(#[trigger] rules[i], path, ext)
}

/// A folder rule's folder holds a path: the rule has no folder, the path is
/// the folder itself, or the path lies below it.
pub open spec fn in_rule_folder(prefix: Seq<char>, path: Seq<char>) -> bool {
    prefix.len() == 0 || path == prefix || (path.len() > prefix.len() && path.subrange(0, prefix.len() as int)
        == prefix && path[prefix.len() as int] == '/')
}

/// The folder rules of a content type admit a file exactly when there are
/// none, or some rule whose folder holds the file's path lists the file's
/// extension among its own: an extension allowed only in another folder, or
/// in no rule at all, is refused.
pub proof fn lemma_rules_admit(rules: Seq<PathRule>, path: Seq<char>, ext: Seq<char>)
    ensures
        rules_admit(rules, path, ext) <==> (rules.len() == 0 || exists|i: int, j: int|
            0 <= i < rules.len() && 0 <= j < rules[i].extensions@.len()
                && #[trigger] rules[i].extensions@[j]@ == ext && in_rule_folder(rules[i].prefix@, path)),
{
    if rules.len() > 0 {
        if rules_admit(rules, path, ext) {
            let i = choose|i: int| 0 <= i < rules.len() && rule_admits(#[trigger] rules[i], path, ext);
            let l = strs(rules[i].extensions);
            let j = choose|j: int| 0 <= j < l.len() && l[j] == ext;
            assert(rules[i].extensions@[j]@ == ext);
            let p = rules[i].prefix@;
            if !(p.len() == 0 || path == p) {
                assert(starts_with(path, p + seq!['/']));
                assert(path.subrange(0, p.len() as int) =~= (p + seq!['/']).subrange(0, p.len() as int));
                assert((p + seq!['/']).subrange(0, p.len() as int) =~= p);
                assert(path[p.len() as int] == path.subrange(0, (p.len() + 1) as int)[p.len() as int]);
                assert((p + seq!['/'])[p.len() as int] == '/');
            }
            assert(in_rule_folder(p, path));
        }
        if exists|i: int, j: int|
            0 <= i < rules.len() && 0 <= j < rules[i].extensions@.len()
                && #[trigger] rules[i].extensions@[j]@ == ext && in_rule_folder(rules[i].prefix@, path) {
            let (i, j) = choose|i: int, j: int|
                0 <= i < rules.len() && 0 <= j < rules[i].extensions@.len()
                    && #[trigger] rules[i].extensions@[j]@ == ext && in_rule_folder(rules[i].prefix@, path);
            let l = strs(rules[i].extensions);
            assert(l[j] == ext);
            let p = rules[i].prefix@;
            if !(p.len() == 0 || path == p) {
                assert(path.subrange(0, (p.len() + 1) as int) =~= p + seq!['/']);
            }
            assert(holds(l, ext));
            assert(rule_admits(rules[i], path, ext));
            assert(rules_admit(rules, path, ext));
        }
    }
}

fn rule_matches(rule: &PathRule, path: &str, extension: &str) -> (r: bool)
    ensures
        r == rule_admits(*rule, path@, extension@),
{
    if !list_contains(&rule.extensions, extension) {
        return false;
    }
    let prefix = chars_of(rule.prefix.as_str());
    if prefix.len() == 0 {
        return true;
    }
    let p = chars_of(path);
    if chars_eq(p.as_slice(), prefix.as_slice()) {
        return true;
    }
    let mut with_slash = prefix;
    with_slash.push('/');
    assert(with_slash@ =~= rule.prefix@ + seq!['/']);
    chars_starts_with(p.as_slice(), with_slash.as_slice())
}

pub fn matches_path_rule(path: &str, extension: &str, content_type: &ContentTypeConfig) -> (r: bool)
    ensures
        r == rules_admit(content_type.path_rules@, path@, extension@),
{
    if content_type.path_rules.len() == 0 {
        return true;
    }
    let mut i: usize = 0;
    while i < content_type.path_rules.len()
        invariant
            0 <= i <= content_type.path_rules@.len(),
            forall|j: int| 0 <= j < i ==> !rule_admits(#[trigger] content_type.path_rules@[j], path@, extension@),
        decreases content_type.path_rules@.len() - i,
    {
        if rule_matches(&content_type.path_rules[i], path, extension) {
            return true;
        }
        i = i + 1;
    }
    false
}

// ---------------------------------------------------------------------------
// `.res` resource lists
// ---------------------------------------------------------------------------

/// Drops every leading `c`.
pub open spec fn strip_start(s: Seq<char>, c: char) -> Seq<char>
    decreases s.len(),
{
    if s.len() > 0 && s[0] == c {
        strip_start(s.drop_first(), c)
    } else {
        s
    }
}

/// Drops every trailing `c`.
pub open spec fn strip_end(s: Seq<char>, c: char) -> Seq<char>
    decreases s.len(),
{
    if s.len() > 0 && s.last() == c {
        strip_end(s.drop_last(), c)
    } else {
        s
    }
}

/// The first position from `i` on where `//` begins.
pub open spec fn double_slash_from(s: Seq<char>, i: int) -> Option<int>
    decreases s.len() - i,
{
    if i < 0 || i + 1 >= s.len() {
        None
    } else if s[i] == '/' && s[i + 1] == '/' {
        Some(i)
    } else {
        double_slash_from(s, i + 1)
    }
}

/// The resource named on one line of a `.res` file: comments and blank lines
/// name nothing, a trailing `//` comment is cut off, and surrounding quotes
/// and whitespace are dropped.
pub open spec fn clean_line(line: Seq<char>) -> Seq<char> {
    let v = trim(line);
    if v.len() == 0 || starts_with(v, seq!['/', '/']) || starts_with(v, seq!['#']) || starts_with(
        v,
        seq![';'],
    ) {
        Seq::<char>::empty()
    } else {
        let cut = match double_slash_from(v, 0) {
            Some(i) => trim(v.take(i)),
            None => v,
        };
        trim(strip_end(strip_start(cut, '"'), '"'))
    }
}

/// A text without `//` in it.
pub open spec fn no_double_slash(s: Seq<char>) -> bool {
    forall|i: int| 0 <= i < s.len() - 1 ==> !(#[trigger] s[i] == '/' && s[i + 1] == '/')
}

proof fn lemma_double_slash_none(s: Seq<char>, i: int)
    requires
        0 <= i,
        no_double_slash(s),
    ensures
        double_slash_from(s, i) is None,
    decreases s.len() - i,
{
    if i + 1 < s.len() {
        assert(!(s[i] == '/' && s[i + 1] == '/'));
        lemma_double_slash_none(s, i + 1);
    }
}

proof fn lemma_double_slash_at(s: Seq<char>, i: int, m: int)
    requires
        0 <= i <= m,
        m + 1 < s.len(),
        s[m] == '/' && s[m + 1] == '/',
        forall|j: int| i <= j < m ==> !(#[trigger] s[j] == '/' && s[j + 1] == '/'),
    ensures
        double_slash_from(s, i) == Some(m),
    decreases m - i,
{
    if i < m {
        lemma_double_slash_at(s, i + 1, m);
    }
}

/// A trailing `//` comment on a line of a `.res` file does not change the
/// resource the line names: for a line `r` without `//` and any comment `c`,
/// the line `r // c` names what `r` names.
pub proof fn lemma_res_comment_ignored(r: Seq<char>, c: Seq<char>)
    requires
        no_double_slash(r),
    ensures
        clean_line(r + seq![' ', '/', '/', ' '] + c) == clean_line(r),
{
    let mid = seq![' ', '/', '/', ' '];
    let line = r + mid + c;
    let k1 = crate::text::trim_start_index(r);
    let ts = r.skip(k1);
    let k2 = crate::text::trim_end_index(ts);
    let core = ts.take(k2);
    let w = ts.skip(k2);
    let a = r.take(k1);
    assert(trim(r) == core);
    assert(r =~= a + core + w);
    assert forall|j: int| 0 <= j < w.len() implies crate::text::is_ws(#[trigger] w[j]) by {
        assert(w[j] == ts[k2 + j]);
    }
    assert forall|j: int| 0 <= j < a.len() implies crate::text::is_ws(#[trigger] a[j]) by {
        assert(a[j] == r[j]);
    }
    assert(crate::text::is_ws(' '));
    assert(!crate::text::is_ws('/'));
    if core.len() == 0 {
        let pp = r + seq![' '];
        let q = seq!['/', '/', ' '] + c;
        assert(line =~= pp + q);
        assert forall|j: int| 0 <= j < pp.len() implies crate::text::is_ws(#[trigger] pp[j]) by {
            if j < r.len() {
                assert(r[j] == (a + core + w)[j]);
                if j < a.len() {
                    assert((a + core + w)[j] == a[j]);
                } else {
                    assert((a + core + w)[j] == w[j - a.len()]);
                }
            }
        }
        assert(q[0] == '/');
        crate::text::lemma_trim_start_of(pp, q);
        let k3 = crate::text::trim_end_index(q);
        assert(q[1] == '/');
        assert(k3 >= 2);
        let v = q.take(k3);
        assert(v.subrange(0, 2) =~= seq!['/', '/']);
        assert(starts_with(v, seq!['/', '/']));
        assert(clean_line(line) == Seq::<char>::empty());
    } else {
        let t = core + w + mid + c;
        let len: int = (core.len() + w.len()) as int;
        assert(line =~= a + t);
        assert(core[0] == ts[0]);
        assert(ts[0] == r[k1]);
        crate::text::lemma_trim_start_of(a, t);
        assert(core.last() == ts[k2 - 1]);
        assert(t[len + 2] == '/');
        let k3 = crate::text::trim_end_index(t);
        assert(k3 >= len + 3);
        let v = t.take(k3);
        assert(trim(line) == v);
        assert forall|j: int| 0 <= j < core.len() implies #[trigger] core[j] == r[k1 + j] by {
            assert(core[j] == ts[j]);
        }
        assert(no_double_slash(core)) by {
            assert forall|i: int| 0 <= i < core.len() - 1 implies !(#[trigger] core[i] == '/' && core[i + 1] == '/') by {
                assert(core[i] == r[k1 + i]);
                assert(core[i + 1] == r[k1 + i + 1]);
            }
        }
        assert(v[0] == core[0]);
        assert(v[1] == t[1]);
        if core.len() >= 2 {
            assert(t[1] == core[1]);
        } else {
            assert(t[1] == (w + mid)[0]);
            assert(crate::text::is_ws(t[1]));
        }
        assert(!starts_with(v, seq!['/', '/'])) by {
            if starts_with(v, seq!['/', '/']) {
                assert(v.subrange(0, 2)[0] == v[0]);
                assert(v.subrange(0, 2)[1] == v[1]);
            }
        }
        assert(!starts_with(core, seq!['/', '/'])) by {
            if starts_with(core, seq!['/', '/']) {
                assert(core.subrange(0, 2)[0] == core[0]);
                assert(core.subrange(0, 2)[1] == core[1]);
            }
        }
        assert(starts_with(v, seq!['#']) == starts_with(core, seq!['#'])) by {
            assert(v.subrange(0, 1) =~= seq![v[0]]);
            assert(core.subrange(0, 1) =~= seq![core[0]]);
        }
        assert(starts_with(v, seq![';']) == starts_with(core, seq![';'])) by {
            assert(v.subrange(0, 1) =~= seq![v[0]]);
            assert(core.subrange(0, 1) =~= seq![core[0]]);
        }
        lemma_double_slash_none(core, 0);
        assert forall|j: int| 0 <= j < len + 1 implies !(#[trigger] v[j] == '/' && v[j + 1] == '/') by {
            assert(v[j] == t[j]);
            assert(v[j + 1] == t[j + 1]);
            if j + 1 < core.len() {
                assert(t[j] == core[j] && t[j + 1] == core[j + 1]);
            } else if j < core.len() {
                assert(t[j + 1] == (w + mid)[j + 1 - core.len()]);
                assert(crate::text::is_ws(t[j + 1]));
            } else {
                assert(t[j] == (w + mid)[j - core.len()]);
                assert(crate::text::is_ws(t[j]));
            }
        }
        assert(v[len + 1] == '/' && v[len + 2] == '/');
        lemma_double_slash_at(v, 0, len + 1);
        let head = v.take(len + 1);
        assert(head =~= core + (w + seq![' ']));
        assert forall|j: int| 0 <= j < (w + seq![' ']).len() implies crate::text::is_ws(#[trigger] (w + seq![' '])[j]) by {
            if j < w.len() {
                assert((w + seq![' '])[j] == w[j]);
            }
        }
        crate::text::lemma_trim_start_of(Seq::<char>::empty(), head);
        assert(Seq::<char>::empty() + head =~= head);
        crate::text::lemma_trim_end_of(core, w + seq![' ']);
        assert(trim(head) == core);
    }
}

/// A resource name as a `.res` line writes it plainly: not empty, no
/// whitespace or quote at either end, not starting like a comment, and
/// without `//`.
pub open spec fn plain_resource(r: Seq<char>) -> bool {
    &&& r.len() > 0
    &&& !crate::text::is_ws(r[0]) && !crate::text::is_ws(r.last())
    &&& r[0] != '"' && r.last() != '"'
    &&& r[0] != '#' && r[0] != ';'
    &&& no_double_slash(r)
}

/// All whitespace.
pub open spec fn all_ws(p: Seq<char>) -> bool {
    forall|j: int| 0 <= j < p.len() ==> crate::text::is_ws(#[trigger] p[j])
}

proof fn lemma_trim_plain(r: Seq<char>)
    requires
        r.len() > 0,
        !crate::text::is_ws(r[0]),
        !crate::text::is_ws(r.last()),
    ensures
        trim(r) == r,
{
    crate::text::lemma_trim_start_of(Seq::<char>::empty(), r);
    assert(Seq::<char>::empty() + r =~= r);
    crate::text::lemma_trim_end_of(r, Seq::<char>::empty());
    assert(r + Seq::<char>::empty() =~= r);
}

proof fn lemma_trim_padded(p: Seq<char>, x: Seq<char>, q: Seq<char>)
    requires
        all_ws(p),
        all_ws(q),
        x.len() > 0,
        !crate::text::is_ws(x[0]),
        !crate::text::is_ws(x.last()),
    ensures
        trim(p + x + q) == x,
{
    assert(p + x + q =~= p + (x + q));
    assert((x + q)[0] == x[0]);
    crate::text::lemma_trim_start_of(p, x + q);
    crate::text::lemma_trim_end_of(x, q);
}

/// A plainly written resource names itself, whether or not it is wrapped in
/// quotes and whitespace: for a plain name `r` and whitespace `p` and `q`,
/// the lines `p r q` and `p "r" q` both name `r`.
pub proof fn lemma_res_plain_names_itself(p: Seq<char>, r: Seq<char>, q: Seq<char>)
    requires
        plain_resource(r),
        all_ws(p),
        all_ws(q),
    ensures
        clean_line(p + r + q) == r,
        clean_line(p + seq!['"'] + r + seq!['"'] + q) == r,
{
    assert(!crate::text::is_ws('"'));
    lemma_trim_plain(r);
    lemma_double_slash_none(r, 0);
    assert(!starts_with(r, seq!['/', '/'])) by {
        if starts_with(r, seq!['/', '/']) {
            assert(r.subrange(0, 2)[0] == r[0]);
            assert(r.subrange(0, 2)[1] == r[1]);
        }
    }
    assert(!starts_with(r, seq!['#']) && !starts_with(r, seq![';'])) by {
        assert(r.subrange(0, 1)[0] == r[0]);
        assert(seq!['#'][0] == '#' && seq![';'][0] == ';');
    }
    assert(strip_start(r, '"') == r);
    assert(strip_end(r, '"') == r);
    lemma_trim_padded(p, r, q);
    let x = seq!['"'] + r + seq!['"'];
    assert(x[0] == '"' && x.last() == '"');
    assert(p + seq!['"'] + r + seq!['"'] + q =~= p + x + q);
    lemma_trim_padded(p, x, q);
    assert(!starts_with(x, seq!['/', '/']) && !starts_with(x, seq!['#']) && !starts_with(x, seq![';'])) by {
        assert(x.subrange(0, 1)[0] == x[0]);
        assert(x.subrange(0, 2)[0] == x[0]);
    }
    assert(no_double_slash(x)) by {
        assert forall|i: int| 0 <= i < x.len() - 1 implies !(#[trigger] x[i] == '/' && x[i + 1] == '/') by {
            if 1 <= i && i + 1 <= r.len() {
                assert(x[i] == r[i - 1] && x[i + 1] == r[i]);
            }
        }
    }
    lemma_double_slash_none(x, 0);
    assert(x.drop_first() =~= r + seq!['"']);
    assert((r + seq!['"'])[0] == r[0]);
    assert(strip_start(r + seq!['"'], '"') == r + seq!['"']);
    assert((r + seq!['"']).drop_last() =~= r);
}

/// Comment lines name no resource: after any whitespace, a line starting
/// with `#`, `;` or `//` names nothing.
pub proof fn lemma_res_comment_lines(p: Seq<char>, c: Seq<char>)
    requires
        all_ws(p),
    ensures
        clean_line(p + seq!['#'] + c) == Seq::<char>::empty(),
        clean_line(p + seq![';'] + c) == Seq::<char>::empty(),
        clean_line(p + seq!['/', '/'] + c) == Seq::<char>::empty(),
{
    let marks = seq![seq!['#'], seq![';'], seq!['/', '/']];
    assert forall|m: int| 0 <= m < 3 implies clean_line(p + #[trigger] marks[m] + c) == Seq::<char>::empty() by {
        let x = marks[m] + c;
        assert(p + marks[m] + c =~= p + x);
        assert(x[0] == marks[m][0]);
        assert(!crate::text::is_ws(x[0]));
        crate::text::lemma_trim_start_of(p, x);
        let k = crate::text::trim_end_index(x);
        assert(k >= marks[m].len()) by {
            if k < marks[m].len() {
                assert(x[marks[m].len() - 1] == marks[m][marks[m].len() - 1]);
                assert(!crate::text::is_ws(x[marks[m].len() - 1]));
            }
        }
        let v = x.take(k);
        assert(v.subrange(0, marks[m].len() as int) =~= marks[m]);
    }
    assert(marks[0] == seq!['#']);
    assert(marks[1] == seq![';']);
    assert(marks[2] == seq!['/', '/']);
}

fn strip_quotes(s: &[char]) -> (r: Vec<char>)
    ensures
        r@ == strip_end(strip_start(s@, '"'), '"'),
{
    let mut k: usize = 0;
    assert(s@.skip(0) =~= s@);
    while k < s.len() && s[k] == '"'
        invariant
            0 <= k <= s.len(),
            strip_start(s@.skip(k as int), '"') == strip_start(s@, '"'),
        decreases s.len() - k,
    {
        assert(s@.skip(k as int).drop_first() =~= s@.skip(k + 1));
        k = k + 1;
    }
    assert(strip_start(s@.skip(k as int), '"') == s@.skip(k as int)) by {
        if k < s.len() {
            assert(s@.skip(k as int)[0] == s@[k as int]);
        }
    }
    let mut n: usize = s.len();
    let ghost t = s@.skip(k as int);
    assert(s@.subrange(k as int, n as int) =~= t);
    while n > k && s[n - 1] == '"'
        invariant
            k <= n <= s.len(),
            t == s@.skip(k as int),
            strip_end(s@.subrange(k as int, n as int), '"') == strip_end(t, '"'),
        decreases n,
    {
        assert(s@.subrange(k as int, n as int).drop_last() =~= s@.subrange(k as int, n - 1));
        n = n - 1;
    }
    assert(strip_end(s@.subrange(k as int, n as int), '"') == s@.subrange(k as int, n as int)) by {
        if n > k {
            assert(s@.subrange(k as int, n as int).last() == s@[n - 1]);
        }
    }
    let mut r: Vec<char> = Vec::new();
    let mut i: usize = k;
    while i < n
        invariant
            k <= i <= n <= s.len(),
            r@ == s@.subrange(k as int, i as int),
        decreases n - i,
    {
        r.push(s[i]);
        i = i + 1;
        assert(s@.subrange(k as int, i as int) =~= s@.subrange(k as int, i - 1).push(s@[i - 1]));
    }
    r
}

fn take_chars(s: &[char], n: usize) -> (r: Vec<char>)
    requires
        n <= s.len(),
    ensures
        r@ == s@.take(n as int),
{
    let mut r: Vec<char> = Vec::new();
    let mut i: usize = 0;
    while i < n
        invariant
            0 <= i <= n <= s.len(),
            r@ == s@.take(i as int),
        decreases n - i,
    {
        r.push(s[i]);
        i = i + 1;
        assert(s@.take(i as int) =~= s@.take((i - 1) as int).push(s@[i - 1]));
    }
    r
}

/// The resource named on one line of a `.res` file.
pub fn clean_res_line(line: &str) -> (r: String)
    ensures
        r@ == clean_line(line@),
{
    let raw = chars_of(line);
    let v = trim_chars(raw.as_slice());
    let comment = v.len() >= 2 && v[0] == '/' && v[1] == '/';
    proof {
        if v@.len() >= 2 {
            if v@[0] == '/' && v@[1] == '/' {
                assert(v@.subrange(0, 2) =~= seq!['/', '/']);
            }
            if starts_with(v@, seq!['/', '/']) {
                assert(v@.subrange(0, 2)[0] == v@[0] && v@.subrange(0, 2)[1] == v@[1]);
            }
        }
        if v@.len() >= 1 {
            if v@[0] == '#' {
                assert(v@.subrange(0, 1) =~= seq!['#']);
            }
            if v@[0] == ';' {
                assert(v@.subrange(0, 1) =~= seq![';']);
            }
            if starts_with(v@, seq!['#']) || starts_with(v@, seq![';']) {
                assert(v@.subrange(0, 1)[0] == v@[0]);
            }
        }
    }
    if v.len() == 0 || comment || v[0] == '#' || v[0] == ';' {
        return String::new();
    }
    let mut i: usize = 0;
    while i < v.len() - 1 && !(v[i] == '/' && v[i + 1] == '/')
        invariant
            0 <= i <= v@.len(),
            v@.len() > 0,
            double_slash_from(v@, i as int) == double_slash_from(v@, 0),
        decreases v@.len() - i,
    {
        i = i + 1;
    }
    let cut = if i < v.len() - 1 {
        let head = take_chars(v.as_slice(), i);
        trim_chars(head.as_slice())
    } else {
        v
    };
    let q = strip_quotes(cut.as_slice());
    let t = trim_chars(q.as_slice());
    string_of(t.as_slice())
}

/// A line without the carriage return that ended it.
pub open spec fn strip_cr(x: Seq<char>) -> Seq<char> {
    if x.len() > 0 && x.last() == '\r' {
        x.drop_last()
    } else {
        x
    }
}

/// `str::lines`: lines end at `\n` or `\r\n`; the last line ending is optional.
pub open spec fn lines_of(s: Seq<char>) -> Seq<Seq<char>> {
    let segs = split_on(s, '\n');
    let full = segs.take(segs.len() - 1).map_values(|x: Seq<char>| strip_cr(x));
    if segs.last().len() == 0 {
        full
    } else {
        full.push(segs.last())
    }
}

/// The lines of a text.
pub fn text_lines(s: &[char]) -> (r: Vec<Vec<char>>)
    ensures
        r@.map_values(|v: Vec<char>| v@) == lines_of(s@),
{
    let segs = split_chars(s, '\n');
    let ghost sv = segs@.map_values(|v: Vec<char>| v@);
    proof {
        crate::text::lemma_split_nonempty(s@, '\n');
    }
    let mut r: Vec<Vec<char>> = Vec::new();
    let mut i: usize = 0;
    while i + 1 < segs.len()
        invariant
            0 <= i < segs.len(),
            sv == segs@.map_values(|v: Vec<char>| v@),
            r@.map_values(|v: Vec<char>| v@) == sv.take(i as int).map_values(|x: Seq<char>| strip_cr(x)),
        decreases segs.len() - i,
    {
        assert(sv[i as int] == segs@[i as int]@);
        let seg = &segs[i];
        let line = if seg.len() > 0 && seg[seg.len() - 1] == '\r' {
            take_chars(seg.as_slice(), seg.len() - 1)
        } else {
            take_chars(seg.as_slice(), seg.len())
        };
        proof {
            assert(seg@.take(seg@.len() as int) =~= seg@);
            if seg@.len() > 0 {
                assert(seg@.take(seg@.len() - 1) =~= seg@.drop_last());
            }
        }
        let ghost before = r@.map_values(|v: Vec<char>| v@);
        r.push(line);
        assert(r@.map_values(|v: Vec<char>| v@) =~= before.push(strip_cr(sv[i as int])));
        assert(sv.take(i + 1).map_values(|x: Seq<char>| strip_cr(x)) =~= sv.take(i as int).map_values(
            |x: Seq<char>| strip_cr(x),
        ).push(strip_cr(sv[i as int])));
        i = i + 1;
    }
    let last = segs.len() - 1;
    assert(sv[last as int] == segs@[last as int]@);
    assert(sv.last() == sv[last as int]);
    if segs[last].len() > 0 {
        let ghost before = r@.map_values(|v: Vec<char>| v@);
        r.push(take_chars(segs[last].as_slice(), segs[last].len()));
        assert(segs@[last as int]@.take(segs@[last as int]@.len() as int) =~= segs@[last as int]@);
        assert(r@.map_values(|v: Vec<char>| v@) =~= before.push(sv.last()));
    }
    r
}


// ---------------------------------------------------------------------------
// Validating a package entry by entry
// ---------------------------------------------------------------------------

/// `u64::saturating_add`.
pub open spec fn sat_add(a: u64, b: u64) -> u64 {
    if a + b > u64::MAX {
        u64::MAX
    } else {
        (a + b) as u64
    }
}

fn saturating_add(a: u64, b: u64) -> (r: u64)
    ensures
        r == sat_add(a, b),
{
    if a > u64::MAX - b {
        u64::MAX
    } else {
        a + b
    }
}

/// What a content type says of one archive entry, given the lowercase paths
/// already seen and the running compressed and uncompressed totals: the
/// normalized path and its extension, or the refusal text.
pub open spec fn entry_result(
    ct: ContentTypeConfig,
    seen: Seq<Seq<char>>,
    total_compressed: u64,
    total_uncompressed: u64,
    raw: Seq<char>,
    size: u64,
    compressed_size: u64,
    is_symlink: bool,
) -> Result<(Seq<char>, Seq<char>), Seq<char>> {
    match normalize_result(raw, ct.max_depth as int) {
        Err(m) => Err(m),
        Ok(p) => match entry_path_result(p, ct.require_lowercase_paths) {
            Err(m) => Err(m),
            Ok(()) => if is_symlink {
                Err(raw + ": symlinks are not accepted"@)
            } else if holds(seen, lower(p)) {
                Err(p + ": duplicate file or case collision"@)
            } else {
                match extension_result(p) {
                    Err(m) => Err(m),
                    Ok(ext) => if !holds(strs(ct.allowed_extensions), ext) {
                        Err(p + ": extension "@ + ext + " is not allowed for "@ + ct.name@)
                    } else if !rules_admit(ct.path_rules@, p, ext) {
                        Err(p + ": folder/extension is not allowed for "@ + ct.name@)
                    } else if size > ct.max_file_bytes {
                        Err(p + ": file exceeds the per-file size limit"@)
                    } else if sat_add(total_compressed, compressed_size) > ct.max_compressed_bytes {
                        Err("compressed content exceeds the configured limit"@)
                    } else if sat_add(total_uncompressed, size) > ct.max_uncompressed_bytes {
                        Err("uncompressed content exceeds the configured limit"@)
                    } else {
                        Ok((p, ext))
                    },
                }
            },
        },
    }
}

/// A `.res` file of the package and its text.
#[derive(Debug)]
pub struct ResFile {
    pub path: String,
    pub content: String,
}

impl View for ResFile {
    type V = (Seq<char>, Seq<char>);

    open spec fn view(&self) -> (Seq<char>, Seq<char>) {
        (self.path@, self.content@)
    }
}

/// What has been learned of a package from the entries seen so far.
#[derive(Debug)]
pub struct ValidationSession {
    /// The accepted files, in archive order.
    pub files: Vec<FileSummary>,
    /// The lowercase paths of the accepted files.
    pub package_paths: Vec<String>,
    /// The extensions found, each once.
    pub found_extensions: Vec<String>,
    /// The `maps/*.res` files with their text.
    pub res_files: Vec<ResFile>,
    pub total_compressed_bytes: u64,
    pub total_uncompressed_bytes: u64,
}

/// The extensions found after one more extension: a set, each kept once.
pub open spec fn with_extension(found: Seq<Seq<char>>, ext: Seq<char>) -> Seq<Seq<char>> {
    if holds(found, ext) {
        found
    } else {
        found.push(ext)
    }
}

impl ValidationSession {
    pub open spec fn file_views(&self) -> Seq<(Seq<char>, u64, u64)> {
        self.files@.map_values(|f: FileSummary| f@)
    }

    pub open spec fn res_views(&self) -> Seq<(Seq<char>, Seq<char>)> {
        self.res_files@.map_values(|f: ResFile| f@)
    }

    /// A session that has seen no entry yet.
    pub fn new() -> (r: ValidationSession)
        ensures
            r.files@.len() == 0,
            r.package_paths@.len() == 0,
            r.found_extensions@.len() == 0,
            r.res_files@.len() == 0,
            r.total_compressed_bytes == 0,
            r.total_uncompressed_bytes == 0,
    {
        ValidationSession {
            files: Vec::new(),
            package_paths: Vec::new(),
            found_extensions: Vec::new(),
            res_files: Vec::new(),
            total_compressed_bytes: 0,
            total_uncompressed_bytes: 0,
        }
    }

    /// Checks one file entry of the archive (directories are not handed in)
    /// and records it. `Ok(true)` asks for the entry's text, because it is a
    /// `.res` file of the `maps` folder; hand it over with `record_res_content`.
    pub fn process_entry(
        &mut self,
        content_type: &ContentTypeConfig,
        raw_name: &str,
        size: u64,
        compressed_size: u64,
        is_symlink: bool,
    ) -> (r: Result<bool, ValidationError>)
        ensures
            match entry_result(
                *content_type,
                strs(old(self).package_paths),
                old(self).total_compressed_bytes,
                old(self).total_uncompressed_bytes,
                raw_name@,
                size,
                compressed_size,
                is_symlink,
            ) {
                Err(m) => r matches Err(e) && is_rejected(e, m),
                Ok((p, ext)) => {
                    &&& r == Ok::<bool, ValidationError>(is_map_res(p))
                    &&& final(self).file_views() == old(self).file_views().push((p, size, compressed_size))
                    &&& strs(final(self).package_paths) == strs(old(self).package_paths).push(lower(p))
                    &&& strs(final(self).found_extensions) == with_extension(strs(old(self).found_extensions), ext)
                    &&& final(self).total_compressed_bytes == sat_add(old(self).total_compressed_bytes, compressed_size)
                    &&& final(self).total_uncompressed_bytes == sat_add(old(self).total_uncompressed_bytes, size)
                    &&& final(self).res_views() == old(self).res_views()
                },
            },
    {
        let path = match normalize_zip_path(raw_name, content_type.max_depth) {
            Ok(p) => p,
            Err(e) => return Err(e),
        };
        match validate_entry_path(path.as_str(), content_type) {
            Ok(()) => {},
            Err(e) => return Err(e),
        }
        if is_symlink {
            return Err(ValidationError::Rejected(concat2(raw_name, ": symlinks are not accepted")));
        }
        let folded = lower_string(path.as_str());
        if list_contains(&self.package_paths, folded.as_str()) {
            return Err(
                ValidationError::Rejected(concat2(path.as_str(), ": duplicate file or case collision")),
            );
        }
        let extension = match extension_of(path.as_str()) {
            Ok(x) => x,
            Err(e) => return Err(e),
        };
        if !list_contains(&content_type.allowed_extensions, extension.as_str()) {
            let mut m = concat3(path.as_str(), ": extension ", extension.as_str());
            m.append(" is not allowed for ");
            m.append(content_type.name.as_str());
            return Err(ValidationError::Rejected(m));
        }
        if !matches_path_rule(path.as_str(), extension.as_str(), content_type) {
            let m = concat3(path.as_str(), ": folder/extension is not allowed for ", content_type.name.as_str());
            return Err(ValidationError::Rejected(m));
        }
        if size > content_type.max_file_bytes {
            return Err(
                ValidationError::Rejected(concat2(path.as_str(), ": file exceeds the per-file size limit")),
            );
        }
        let tc = saturating_add(self.total_compressed_bytes, compressed_size);
        if tc > content_type.max_compressed_bytes {
            return Err(
                ValidationError::Rejected(String::from_str("compressed content exceeds the configured limit")),
            );
        }
        let tu = saturating_add(self.total_uncompressed_bytes, size);
        if tu > content_type.max_uncompressed_bytes {
            return Err(
                ValidationError::Rejected(String::from_str("uncompressed content exceeds the configured limit")),
            );
        }
        self.total_compressed_bytes = tc;
        self.total_uncompressed_bytes = tu;
        let p = chars_of(path.as_str());
        let wants_text = is_map_res_chars(p.as_slice());
        self.package_paths.push(folded);
        if !list_contains(&self.found_extensions, extension.as_str()) {
            self.found_extensions.push(extension);
        }
        self.files.push(FileSummary { path, size, compressed_size });
        proof {
            assert(self.file_views() =~= old(self).file_views().push((p@, size, compressed_size)));
            assert(strs(self.package_paths) =~= strs(old(self).package_paths).push(lower(p@)));
            assert(strs(self.found_extensions) =~= with_extension(strs(old(self).found_extensions), extension@));
            assert(self.res_views() =~= old(self).res_views());
        }
        Ok(wants_text)
    }

    /// The refusal when the text of the `.res` file that was accepted last
    /// could not be read, for the given reason.
    pub fn res_read_failed(&self, reason: &str) -> (r: ValidationError)
        requires
            self.files@.len() > 0,
        ensures
            is_rejected(r, self.files@.last().path@ + ": could not read .res file: "@ + reason@),
    {
        let path = self.files[self.files.len() - 1].path.as_str();
        ValidationError::Rejected(concat3(path, ": could not read .res file: ", reason))
    }

    /// Records the text of the `.res` file that was accepted last.
    pub fn record_res_content(&mut self, content: String)
        requires
            old(self).files@.len() > 0,
        ensures
            final(self).res_views() == old(self).res_views().push((old(self).files@.last().path@, content@)),
            final(self).file_views() == old(self).file_views(),
            final(self).package_paths == old(self).package_paths,
            final(self).found_extensions == old(self).found_extensions,
            final(self).total_compressed_bytes == old(self).total_compressed_bytes,
            final(self).total_uncompressed_bytes == old(self).total_uncompressed_bytes,
    {
        let path = self.files[self.files.len() - 1].path.clone();
        self.res_files.push(ResFile { path, content });
        assert(self.res_views() =~= old(self).res_views().push((old(self).files@.last().path@, content@)));
    }
}


// ---------------------------------------------------------------------------
// Before and after the entries
// ---------------------------------------------------------------------------

/// Looks up the content type, requires a server root and reads the archive kind
/// from the package file name. Gives the content type's position and the kind.
pub fn start_validation(config: &AppConfig, content_type_id: &str, package_file_name: &str) -> (r: Result<(usize, ArchiveKind), ValidationError>)
    ensures
        match content_type_index_spec(config.content_types@, content_type_id@) {
            None => r matches Err(ValidationError::UnknownContentType(id)) && id@ == content_type_id@,
            Some(i) => if config.storage.server_root@.len() == 0 {
                r matches Err(ValidationError::MissingServerRoot)
            } else {
                match archive_kind_of(package_file_name@) {
                    Some(k) => r matches Ok((j, kind)) && j == i && kind == k && j < config.content_types@.len(),
                    None => r matches Err(e) && is_rejected(
                        e,
                        "unsupported archive format; use .zip, .tar, .tar.gz, .tgz, .tar.bz2, or .tbz2"@,
                    ),
                }
            },
        },
{
    let index = match config.content_type_index(content_type_id) {
        Some(i) => i,
        None => return Err(ValidationError::UnknownContentType(String::from_str(content_type_id))),
    };
    if config.storage.server_root.as_str().is_empty() {
        return Err(ValidationError::MissingServerRoot);
    }
    match archive_kind(package_file_name) {
        Ok(k) => Ok((index, k)),
        Err(e) => Err(e),
    }
}

/// A TAR package larger than the content type's compressed limit is refused before it is read.
pub fn check_archive_size(content_type: &ContentTypeConfig, package_bytes: u64) -> (r: Result<(), ValidationError>)
    ensures
        package_bytes > content_type.max_compressed_bytes ==> (r matches Err(e) && is_rejected(
            e,
            "compressed content exceeds the configured limit"@,
        )),
        package_bytes <= content_type.max_compressed_bytes ==> r is Ok,
{
    if package_bytes > content_type.max_compressed_bytes {
        return Err(ValidationError::Rejected(String::from_str("compressed content exceeds the configured limit")));
    }
    Ok(())
}

/// The first of the first `n` required extensions that was not found.
pub open spec fn first_missing(required: Seq<Seq<char>>, found: Seq<Seq<char>>, n: int) -> Option<Seq<char>>
    decreases n,
{
    if n <= 0 {
        None
    } else {
        match first_missing(required, found, n - 1) {
            Some(x) => Some(x),
            None => if holds(found, required[n - 1]) {
                None
            } else {
                Some(required[n - 1])
            },
        }
    }
}

/// The verdict on line `k` (counted from 0) of the `.res` file `res_path`.
/// `existing` lists the server-root-relative paths that exist on the server.
pub open spec fn res_line_result(
    max_depth: int,
    package: Seq<Seq<char>>,
    existing: Seq<Seq<char>>,
    res_path: Seq<char>,
    k: int,
    line: Seq<char>,
) -> Result<(), Seq<char>> {
    let resource = clean_line(line);
    if resource.len() == 0 {
        Ok(())
    } else {
        match normalize_result(resource, max_depth) {
            Err(m) => Err(res_path + ":"@ + decimal((k + 1) as nat) + ": invalid resource path: "@ + m),
            Ok(n) => if holds(package, lower(n)) || holds(existing, n) {
                Ok(())
            } else {
                Err(res_path + ":"@ + decimal((k + 1) as nat) + ": listed resource is missing from the ZIP and server root: "@ + n)
            },
        }
    }
}

/// The first refusal among the first `n` lines of a `.res` file.
pub open spec fn res_lines_result(
    max_depth: int,
    package: Seq<Seq<char>>,
    existing: Seq<Seq<char>>,
    res_path: Seq<char>,
    lines: Seq<Seq<char>>,
    n: int,
) -> Result<(), Seq<char>>
    decreases n,
{
    if n <= 0 {
        Ok(())
    } else {
        match res_lines_result(max_depth, package, existing, res_path, lines, n - 1) {
            Err(m) => Err(m),
            Ok(()) => res_line_result(max_depth, package, existing, res_path, n - 1, lines[n - 1]),
        }
    }
}

/// The first refusal among the first `n` `.res` files: every resource they
/// list must be in the package or exist on the server.
pub open spec fn res_files_result(
    max_depth: int,
    package: Seq<Seq<char>>,
    existing: Seq<Seq<char>>,
    files: Seq<(Seq<char>, Seq<char>)>,
    n: int,
) -> Result<(), Seq<char>>
    decreases n,
{
    if n <= 0 {
        Ok(())
    } else {
        match res_files_result(max_depth, package, existing, files, n - 1) {
            Err(m) => Err(m),
            Ok(()) => {
                let lines = lines_of(files[n - 1].1);
                res_lines_result(max_depth, package, existing, files[n - 1].0, lines, lines.len() as int)
            },
        }
    }
}

proof fn lemma_res_lines_err(
    max_depth: int,
    package: Seq<Seq<char>>,
    existing: Seq<Seq<char>>,
    res_path: Seq<char>,
    lines: Seq<Seq<char>>,
    n: int,
    m: int,
)
    requires
        0 <= n <= m,
        res_lines_result(max_depth, package, existing, res_path, lines, n) is Err,
    ensures
        res_lines_result(max_depth, package, existing, res_path, lines, m) == res_lines_result(max_depth, package, existing, res_path, lines, n),
    decreases m - n,
{
    if m > n {
        lemma_res_lines_err(max_depth, package, existing, res_path, lines, n, m - 1);
    }
}

proof fn lemma_res_files_err(
    max_depth: int,
    package: Seq<Seq<char>>,
    existing: Seq<Seq<char>>,
    files: Seq<(Seq<char>, Seq<char>)>,
    n: int,
    m: int,
)
    requires
        0 <= n <= m,
        res_files_result(max_depth, package, existing, files, n) is Err,
    ensures
        res_files_result(max_depth, package, existing, files, m) == res_files_result(max_depth, package, existing, files, n),
    decreases m - n,
{
    if m > n {
        lemma_res_files_err(max_depth, package, existing, files, n, m - 1);
    }
}

fn line_prefix(res_path: &str, k: usize) -> (r: String)
    requires
        k < usize::MAX,
    ensures
        r@ == res_path@ + ":"@ + decimal((k + 1) as nat),
{
    let n = decimal_string((k + 1) as u64);
    concat3(res_path, ":", n.as_str())
}

/// Every resource listed by the `.res` files must be in the package or exist on the server.
pub fn validate_res_files(
    max_depth: usize,
    res_files: &Vec<ResFile>,
    package_paths: &Vec<String>,
    server_existing: &Vec<String>,
) -> (r: Result<(), ValidationError>)
    ensures
        match res_files_result(
            max_depth as int,
            strs(*package_paths),
            strs(*server_existing),
            res_files@.map_values(|f: ResFile| f@),
            res_files@.len() as int,
        ) {
            Ok(()) => r is Ok,
            Err(m) => r matches Err(e) && is_rejected(e, m),
        },
{
    let ghost pkg = strs(*package_paths);
    let ghost ex = strs(*server_existing);
    let ghost fs = res_files@.map_values(|f: ResFile| f@);
    let mut i: usize = 0;
    while i < res_files.len()
        invariant
            0 <= i <= res_files.len(),
            pkg == strs(*package_paths),
            ex == strs(*server_existing),
            fs == res_files@.map_values(|f: ResFile| f@),
            res_files_result(max_depth as int, pkg, ex, fs, i as int) is Ok,
        decreases res_files.len() - i,
    {
        assert(fs[i as int] == res_files@[i as int]@);
        let content = chars_of(res_files[i].content.as_str());
        let lines = text_lines(content.as_slice());
        let ghost lv = lines@.map_values(|v: Vec<char>| v@);
        let ghost rp = res_files@[i as int].path@;
        let mut k: usize = 0;
        while k < lines.len()
            invariant
                0 <= k <= lines.len(),
                0 <= i < res_files.len(),
                lv == lines@.map_values(|v: Vec<char>| v@),
                lv == lines_of(fs[i as int].1),
                rp == res_files@[i as int].path@,
                rp == fs[i as int].0,
                fs == res_files@.map_values(|f: ResFile| f@),
                pkg == strs(*package_paths),
                ex == strs(*server_existing),
                res_files_result(max_depth as int, pkg, ex, fs, i as int) is Ok,
                res_lines_result(max_depth as int, pkg, ex, rp, lv, k as int) is Ok,
            decreases lines.len() - k,
        {
            assert(lv[k as int] == lines@[k as int]@);
            let line = string_of(lines[k].as_slice());
            let resource = clean_res_line(line.as_str());
            if !resource.as_str().is_empty() {
                match normalize_zip_path(resource.as_str(), max_depth) {
                    Err(e) => {
                        let mut m = line_prefix(res_files[i].path.as_str(), k);
                        m.append(": invalid resource path: ");
                        let inner = e.message();
                        m.append(inner.as_str());
                        proof {
                            lemma_res_lines_err(max_depth as int, pkg, ex, rp, lv, (k + 1) as int, lv.len() as int);
                            lemma_res_files_err(max_depth as int, pkg, ex, fs, (i + 1) as int, fs.len() as int);
                        }
                        return Err(ValidationError::Rejected(m));
                    },
                    Ok(normalized) => {
                        let folded = lower_string(normalized.as_str());
                        if !list_contains(package_paths, folded.as_str()) && !list_contains(server_existing, normalized.as_str()) {
                            let mut m = line_prefix(res_files[i].path.as_str(), k);
                            m.append(": listed resource is missing from the ZIP and server root: ");
                            m.append(normalized.as_str());
                            proof {
                                lemma_res_lines_err(max_depth as int, pkg, ex, rp, lv, (k + 1) as int, lv.len() as int);
                                lemma_res_files_err(max_depth as int, pkg, ex, fs, (i + 1) as int, fs.len() as int);
                            }
                            return Err(ValidationError::Rejected(m));
                        }
                    },
                }
            }
            k = k + 1;
        }
        i = i + 1;
    }
    Ok(())
}

/// Whether `list` holds every resource named by the `.res` files under a valid path.
pub open spec fn lists_all_resources(max_depth: int, files: Seq<(Seq<char>, Seq<char>)>, list: Seq<Seq<char>>) -> bool {
    forall|i: int, k: int|
        0 <= i < files.len() && 0 <= k < lines_of(files[i].1).len() && clean_line(#[trigger] lines_of(files[i].1)[k]).len() > 0
            && normalize_result(clean_line(lines_of(files[i].1)[k]), max_depth) is Ok ==> holds(
            list,
            normalize_result(clean_line(lines_of(files[i].1)[k]), max_depth)->Ok_0,
        )
}


impl ValidationSession {
    /// Every resource that the `.res` files name under a valid path: the paths
    /// whose presence on the server `finish` may ask about.
    pub fn resource_paths(&self, max_depth: usize) -> (r: Vec<String>)
        ensures
            lists_all_resources(max_depth as int, self.res_views(), strs(r)),
    {
        let ghost fs = self.res_views();
        let mut r: Vec<String> = Vec::new();
        let mut i: usize = 0;
        while i < self.res_files.len()
            invariant
                0 <= i <= self.res_files.len(),
                fs == self.res_views(),
                forall|i2: int, k: int|
                    0 <= i2 < i && 0 <= k < lines_of(fs[i2].1).len() && clean_line(#[trigger] lines_of(fs[i2].1)[k]).len() > 0
                        && normalize_result(clean_line(lines_of(fs[i2].1)[k]), max_depth as int) is Ok ==> holds(
                        strs(r),
                        normalize_result(clean_line(lines_of(fs[i2].1)[k]), max_depth as int)->Ok_0,
                    ),
            decreases self.res_files.len() - i,
        {
            assert(fs[i as int] == self.res_files@[i as int]@);
            let content = chars_of(self.res_files[i].content.as_str());
            let lines = text_lines(content.as_slice());
            let ghost lv = lines@.map_values(|v: Vec<char>| v@);
            let mut k: usize = 0;
            while k < lines.len()
                invariant
                    0 <= k <= lines.len(),
                    0 <= i < self.res_files.len(),
                    lv == lines@.map_values(|v: Vec<char>| v@),
                    lv == lines_of(fs[i as int].1),
                    fs == self.res_views(),
                    forall|i2: int, k2: int|
                        ((0 <= i2 < i && 0 <= k2 < lines_of(fs[i2].1).len()) || (i2 == i && 0 <= k2 < k))
                            && clean_line(#[trigger] lines_of(fs[i2].1)[k2]).len() > 0
                            && normalize_result(clean_line(lines_of(fs[i2].1)[k2]), max_depth as int) is Ok ==> holds(
                            strs(r),
                            normalize_result(clean_line(lines_of(fs[i2].1)[k2]), max_depth as int)->Ok_0,
                        ),
                decreases lines.len() - k,
            {
                assert(lv[k as int] == lines@[k as int]@);
                let line = string_of(lines[k].as_slice());
                let resource = clean_res_line(line.as_str());
                if !resource.as_str().is_empty() {
                    match normalize_zip_path(resource.as_str(), max_depth) {
                        Ok(n) => {
                            let ghost before = strs(r);
                            r.push(n);
                            proof {
                                assert(strs(r) =~= before.push(normalize_result(clean_line(lv[k as int]), max_depth as int)->Ok_0));
                                assert forall|x: Seq<char>| holds(before, x) implies holds(strs(r), x) by {
                                    let w = choose|w: int| 0 <= w < before.len() && before[w] == x;
                                    assert(strs(r)[w] == x);
                                }
                                assert(strs(r)[before.len() as int] == normalize_result(clean_line(lv[k as int]), max_depth as int)->Ok_0);
                            }
                        },
                        Err(_) => {},
                    }
                }
                k = k + 1;
            }
            i = i + 1;
        }
        r
    }
}

/// What a validated package holds.
#[derive(Debug)]
pub struct ValidationReport {
    pub content_type: String,
    pub file_count: usize,
    pub total_uncompressed_bytes: u64,
    pub folders: Vec<CountItem>,
    pub extensions: Vec<CountItem>,
    pub largest_files: Vec<FileSummary>,
    pub files: Vec<FileSummary>,
    pub compressed_files: Vec<String>,
    pub conflicts: Vec<String>,
}

/// The top-level folder of each file (its path up to the first `/`).
pub open spec fn folder_values(files: Seq<(Seq<char>, u64, u64)>) -> Seq<Seq<char>> {
    files.map_values(|f: (Seq<char>, u64, u64)| split_on(f.0, '/')[0])
}

/// The extension of each file, or `(no extension)`.
pub open spec fn extension_value(path: Seq<char>) -> Seq<char> {
    match extension_result(path) {
        Ok(x) => x,
        Err(_) => "(no extension)"@,
    }
}

pub open spec fn extension_values(files: Seq<(Seq<char>, u64, u64)>) -> Seq<Seq<char>> {
    files.map_values(|f: (Seq<char>, u64, u64)| extension_value(f.0))
}

/// Whether any of the extensions was found.
pub open spec fn any_found(required: Seq<Seq<char>>, found: Seq<Seq<char>>) -> bool {
    exists|i: int| 0 <= i < required.len() && holds(found, #[trigger] required[i])
}

/// The package-level verdict after all entries: a refusal text, or `Ok` when the report is given.
pub open spec fn package_result(
    session: ValidationSession,
    ct: ContentTypeConfig,
    server_existing: Seq<Seq<char>>,
) -> Result<(), Seq<char>> {
    let fs = session.file_views();
    let found = strs(session.found_extensions);
    if fs.len() == 0 {
        Err("archive is empty"@)
    } else if fs.len() > ct.max_file_count {
        Err("archive exceeds the file count limit"@)
    } else {
        match first_missing(strs(ct.required_extensions), found, ct.required_extensions@.len() as int) {
            Some(x) => Err("archive must contain the required extension "@ + x),
            None => match res_files_result(
                ct.max_depth as int,
                strs(session.package_paths),
                server_existing,
                session.res_views(),
                session.res_files@.len() as int,
            ) {
                Err(m) => Err(m),
                Ok(()) => if ct.required_any_extensions@.len() > 0 && !any_found(strs(ct.required_any_extensions), found) {
                    Err("archive must contain at least one of these extensions: "@ + join_with(strs(ct.required_any_extensions), ", "@))
                } else {
                    Ok(())
                },
            },
        }
    }
}

fn first_missing_of(required: &Vec<String>, found: &Vec<String>) -> (r: Option<String>)
    ensures
        match first_missing(strs(*required), strs(*found), required@.len() as int) {
            Some(x) => r matches Some(s) && s@ == x,
            None => r is None,
        },
{
    let mut i: usize = 0;
    while i < required.len()
        invariant
            0 <= i <= required.len(),
            first_missing(strs(*required), strs(*found), i as int) is None,
        decreases required.len() - i,
    {
        assert(strs(*required)[i as int] == required@[i as int]@);
        if !list_contains(found, required[i].as_str()) {
            proof { lemma_missing_persists(strs(*required), strs(*found), (i + 1) as int, required@.len() as int); }
            return Some(required[i].clone());
        }
        i = i + 1;
    }
    None
}

proof fn lemma_missing_persists(required: Seq<Seq<char>>, found: Seq<Seq<char>>, n: int, m: int)
    requires
        0 <= n <= m,
        first_missing(required, found, n) is Some,
    ensures
        first_missing(required, found, m) == first_missing(required, found, n),
    decreases m - n,
{
    if m > n {
        lemma_missing_persists(required, found, n, m - 1);
    }
}

fn any_found_of(required: &Vec<String>, found: &Vec<String>) -> (r: bool)
    ensures
        r == any_found(strs(*required), strs(*found)),
{
    let mut i: usize = 0;
    while i < required.len()
        invariant
            0 <= i <= required.len(),
            forall|j: int| 0 <= j < i ==> !holds(strs(*found), #[trigger] strs(*required)[j]),
        decreases required.len() - i,
    {
        assert(strs(*required)[i as int] == required@[i as int]@);
        if list_contains(found, required[i].as_str()) {
            return true;
        }
        i = i + 1;
    }
    false
}

impl ValidationSession {
    /// The package-level checks once every entry is in (not empty, not too many
    /// files, required extensions present, resources resolved), then the report.
    /// `server_existing` lists the server-root-relative paths found on the
    /// server, and `compressed_existing` the paths relative to the compressed
    /// copies' base folder (the FastDL root when one is set, else the server root).
    pub fn finish(
        self,
        config: &AppConfig,
        content_type: &ContentTypeConfig,
        server_existing: &Vec<String>,
        compressed_existing: &Vec<String>,
    ) -> (r: Result<ValidationReport, ValidationError>)
        ensures
            match package_result(self, *content_type, strs(*server_existing)) {
                Err(m) => r matches Err(e) && is_rejected(e, m),
                Ok(()) => r matches Ok(report) && {
                    let fs = self.file_views();
                    let compressed = planned_copies(
                        file_paths(fs),
                        config.storage.compressed_formats@,
                        config.storage.fastdl_root is Some,
                        fs.len() as int,
                    );
                    &&& report.content_type@ == content_type.name@
                    &&& report.file_count == fs.len()
                    &&& report.total_uncompressed_bytes == self.total_uncompressed_bytes
                    &&& is_count_table(report.folders@.map_values(|c: CountItem| c@), folder_values(fs))
                    &&& is_count_table(report.extensions@.map_values(|c: CountItem| c@), extension_values(fs))
                    &&& report.largest_files@.map_values(|f: FileSummary| f@) == largest_five(fs)
                    &&& report.files@.map_values(|f: FileSummary| f@) == fs
                    &&& strs(report.compressed_files) == compressed
                    &&& strs(report.conflicts) == kept_existing(file_paths(fs), strs(*server_existing), fs.len() as int)
                        + kept_compressed(compressed, strs(*compressed_existing), compressed.len() as int)
                },
            },
    {
        let ghost fs = self.file_views();
        if self.files.len() == 0 {
            return Err(ValidationError::Rejected(String::from_str("archive is empty")));
        }
        if self.files.len() > content_type.max_file_count {
            return Err(ValidationError::Rejected(String::from_str("archive exceeds the file count limit")));
        }
        match first_missing_of(&content_type.required_extensions, &self.found_extensions) {
            Some(x) => {
                return Err(ValidationError::Rejected(concat2("archive must contain the required extension ", x.as_str())));
            },
            None => {},
        }
        match validate_res_files(content_type.max_depth, &self.res_files, &self.package_paths, server_existing) {
            Ok(()) => {},
            Err(e) => return Err(e),
        }
        if content_type.required_any_extensions.len() > 0 && !any_found_of(&content_type.required_any_extensions, &self.found_extensions) {
            let list = join_strings(&content_type.required_any_extensions, ", ");
            return Err(ValidationError::Rejected(concat2("archive must contain at least one of these extensions: ", list.as_str())));
        }
        let compressed_files = planned_compressed_files(
            &self.files,
            &config.storage.compressed_formats,
            config.storage.fastdl_root.is_some(),
        );
        let conflicts = destination_conflicts(&self.files, &compressed_files, server_existing, compressed_existing);
        let mut folder_names: Vec<String> = Vec::new();
        let mut extension_names: Vec<String> = Vec::new();
        let mut i: usize = 0;
        while i < self.files.len()
            invariant
                0 <= i <= self.files.len(),
                fs == self.file_views(),
                strs(folder_names) == folder_values(fs).take(i as int),
                strs(extension_names) == extension_values(fs).take(i as int),
            decreases self.files.len() - i,
        {
            assert(fs[i as int].0 == self.files@[i as int].path@);
            let p = chars_of(self.files[i].path.as_str());
            let segs = split_chars(p.as_slice(), '/');
            proof { crate::text::lemma_split_nonempty(p@, '/'); }
            assert(segs@.map_values(|v: Vec<char>| v@)[0] == segs@[0]@);
            let ghost fb = strs(folder_names);
            folder_names.push(string_of(segs[0].as_slice()));
            assert(strs(folder_names) =~= folder_values(fs).take(i + 1)) by {
                assert(strs(folder_names) =~= fb.push(split_on(fs[i as int].0, '/')[0]));
            }
            let ext = match extension_of(self.files[i].path.as_str()) {
                Ok(x) => x,
                Err(_) => String::from_str("(no extension)"),
            };
            let ghost eb = strs(extension_names);
            extension_names.push(ext);
            assert(strs(extension_names) =~= extension_values(fs).take(i + 1)) by {
                assert(strs(extension_names) =~= eb.push(extension_value(fs[i as int].0)));
            }
            i = i + 1;
        }
        assert(folder_values(fs).take(fs.len() as int) =~= folder_values(fs));
        assert(extension_values(fs).take(fs.len() as int) =~= extension_values(fs));
        let folders = count_by(&folder_names);
        let extensions = count_by(&extension_names);
        let largest = largest_files(&self.files);
        let file_count = self.files.len();
        Ok(ValidationReport {
            content_type: content_type.name.clone(),
            file_count,
            total_uncompressed_bytes: self.total_uncompressed_bytes,
            folders,
            extensions,
            largest_files: largest,
            files: self.files,
            compressed_files,
            conflicts,
        })
    }
}

} // verus!
