//! What the desktop commands compute: the audit entries read back from the
//! log, the log snapshot's folders, and how credentials are kept out of the
//! saved configuration and put back from secret storage.
use vstd::prelude::*;
use crate::audit::{audit_line_of, clean_detail};
use crate::config::{opt_view, AppConfig, FtpConfig, SftpConfig, StorageConfig};
use crate::paths::{join_path, join_paths};
use crate::storage::UploadManifest;
use crate::text::{
    chars_of, count_char, join_chars, join_with, lemma_join_split, lemma_split_concat, lemma_split_join,
    lemma_split_len, split_chars, split_on, string_of,
};
use crate::validation::{lines_of, text_lines};

verus! {

/// One event of the audit log.
#[derive(Debug)]
pub struct AuditEntry {
    pub timestamp: String,
    pub action: String,
    pub status: String,
    pub detail: String,
}

impl View for AuditEntry {
    type V = (Seq<char>, Seq<char>, Seq<char>, Seq<char>);

    open spec fn view(&self) -> (Seq<char>, Seq<char>, Seq<char>, Seq<char>) {
        (self.timestamp@, self.action@, self.status@, self.detail@)
    }
}

/// The folders and records shown in the log view.
#[derive(Debug)]
pub struct LogSnapshot {
    pub logs_directory: String,
    pub manifests_directory: String,
    pub audit_entries: Vec<AuditEntry>,
    pub manifests: Vec<UploadManifest>,
}

/// A line of the audit log read as `splitn(4, '\t')`: time stamp, action and
/// status are required; the detail is the rest of the line, empty when missing.
pub open spec fn parse_audit(line: Seq<char>) -> Option<(Seq<char>, Seq<char>, Seq<char>, Seq<char>)> {
    let p = split_on(line, '\t');
    if p.len() < 3 {
        None
    } else {
        Some(
            (
                p[0],
                p[1],
                p[2],
                if p.len() > 3 {
                    join_with(p.skip(3), seq!['\t'])
                } else {
                    Seq::<char>::empty()
                },
            ),
        )
    }
}

/// One audit event from a line of the log, if the line has its fields.
pub fn parse_audit_line(line: &str) -> (r: Option<AuditEntry>)
    ensures
        match parse_audit(line@) {
            Some(t) => r matches Some(e) && e@ == t,
            None => r is None,
        },
{
    let v = chars_of(line);
    let mut pieces = split_chars(v.as_slice(), '\t');
    let ghost pv = pieces@.map_values(|x: Vec<char>| x@);
    if pieces.len() < 3 {
        return None;
    }
    let rest = pieces.split_off(3);
    assert(pv[0] == pieces@[0]@ && pv[1] == pieces@[1]@ && pv[2] == pieces@[2]@);
    let detail = if rest.len() > 0 {
        assert(rest@.map_values(|x: Vec<char>| x@) =~= pv.skip(3));
        let joined = join_chars(&rest, '\t');
        string_of(joined.as_slice())
    } else {
        String::new()
    };
    Some(
        AuditEntry {
            timestamp: string_of(pieces[0].as_slice()),
            action: string_of(pieces[1].as_slice()),
            status: string_of(pieces[2].as_slice()),
            detail,
        },
    )
}

/// The events of the lines that parse, in log order.
pub open spec fn entries_of(lines: Seq<Seq<char>>) -> Seq<(Seq<char>, Seq<char>, Seq<char>, Seq<char>)>
    decreases lines.len(),
{
    if lines.len() == 0 {
        Seq::empty()
    } else {
        let prev = entries_of(lines.drop_last());
        match parse_audit(lines.last()) {
            Some(e) => prev.push(e),
            None => prev,
        }
    }
}

/// The events shown from an audit log: newest first, at most 200.
pub open spec fn audit_entries_of(text: Seq<char>) -> Seq<(Seq<char>, Seq<char>, Seq<char>, Seq<char>)> {
    let all = entries_of(lines_of(text)).reverse();
    if all.len() > 200 {
        all.take(200)
    } else {
        all
    }
}

pub open spec fn entry_views(v: Vec<AuditEntry>) -> Seq<(Seq<char>, Seq<char>, Seq<char>, Seq<char>)> {
    v@.map_values(|e: AuditEntry| e@)
}

/// The events of an audit log's text, newest first, at most 200; lines
/// without their fields are left out.
pub fn audit_entries(text: &str) -> (r: Vec<AuditEntry>)
    ensures
        entry_views(r) == audit_entries_of(text@),
{
    let v = chars_of(text);
    let lines = text_lines(v.as_slice());
    let ghost lv = lines@.map_values(|x: Vec<char>| x@);
    let mut parsed: Vec<AuditEntry> = Vec::new();
    let mut i: usize = 0;
    while i < lines.len()
        invariant
            0 <= i <= lines.len(),
            lv == lines@.map_values(|x: Vec<char>| x@),
            entry_views(parsed) == entries_of(lv.take(i as int)),
        decreases lines.len() - i,
    {
        assert(lv.take(i + 1).drop_last() =~= lv.take(i as int));
        assert(lv.take(i + 1).last() == lines@[i as int]@);
        let line = string_of(lines[i].as_slice());
        let ghost before = entry_views(parsed);
        match parse_audit_line(line.as_str()) {
            Some(e) => {
                let ghost ev = e@;
                parsed.push(e);
                assert(entry_views(parsed) =~= before.push(ev));
            },
            None => {},
        }
        i = i + 1;
    }
    assert(lv.take(lines.len() as int) =~= lv);
    let ghost all = entry_views(parsed);
    let total: usize = parsed.len();
    assert(all.len() == total);
    let mut newest: Vec<AuditEntry> = Vec::new();
    while parsed.len() > 0
        invariant
            all.len() <= usize::MAX,
            entry_views(parsed) == all.take(parsed@.len() as int),
            parsed@.len() <= all.len(),
            entry_views(newest) == all.reverse().take(all.len() - parsed@.len()),
        decreases parsed.len(),
    {
        let ghost k = parsed@.len();
        let ghost before = entry_views(newest);
        let e = parsed.pop().unwrap();
        assert(all.take(k as int)[k - 1] == e@);
        assert(all.reverse()[all.len() - k] == all[k - 1]);
        newest.push(e);
        assert(entry_views(newest) =~= before.push(all[k - 1]));
        assert(entry_views(parsed) =~= all.take(k - 1));
        assert(all.reverse().take(all.len() - (k - 1)) =~= all.reverse().take(all.len() - k).push(all.reverse()[all.len() - k]));
    }
    assert(all.reverse().take(all.len() as int) =~= all.reverse());
    if newest.len() > 200 {
        newest.truncate(200);
        assert(entry_views(newest) =~= all.reverse().take(200));
    }
    newest
}

/// The folder of the audit log, which needs a server root.
pub fn logs_directory(config: &AppConfig) -> (r: Result<String, String>)
    ensures
        config.storage.server_root@.len() == 0 ==> (r matches Err(m) && m@ == "Server root is required before opening logs"@),
        config.storage.server_root@.len() > 0 ==> (r matches Ok(p) && p@ == crate::audit::audit_dir_of(
            config.storage.server_root@,
        )),
{
    if config.storage.server_root.as_str().is_empty() {
        return Err(String::from_str("Server root is required before opening logs"));
    }
    Ok(crate::audit::audit_dir(config.storage.server_root.as_str()))
}

/// The folder of the upload manifests, which needs a server root.
pub fn manifests_directory(config: &AppConfig) -> (r: Result<String, String>)
    ensures
        config.storage.server_root@.len() == 0 ==> (r matches Err(m) && m@ == "Server root is required before reading manifests"@),
        config.storage.server_root@.len() > 0 ==> (r matches Ok(p) && p@ == join_path(
            config.storage.server_root@,
            ".uploads"@,
        )),
{
    if config.storage.server_root.as_str().is_empty() {
        return Err(String::from_str("Server root is required before reading manifests"));
    }
    Ok(join_paths(config.storage.server_root.as_str(), ".uploads"))
}

/// A field of an audit line: no tab, carriage return or line feed.
pub open spec fn plain_field(s: Seq<char>) -> bool {
    !s.contains('\t') && !s.contains('\r') && !s.contains('\n')
}

proof fn lemma_clean_detail_plain(d: Seq<char>)
    ensures
        plain_field(clean_detail(d)),
        clean_detail(d).len() == d.len(),
{
    let c = clean_detail(d);
    assert forall|i: int| 0 <= i < c.len() implies c[i] != '\t' && c[i] != '\r' && c[i] != '\n' by {}
}

/// What the log gives back of what was written: the line that `audit_line`
/// writes for an event (with plain time stamp, action and status) reads back
/// as exactly that event, its detail cleaned.
pub proof fn lemma_audit_line_round_trip(timestamp: Seq<char>, action: Seq<char>, status: Seq<char>, detail: Seq<char>)
    requires
        plain_field(timestamp),
        plain_field(action),
        plain_field(status),
    ensures
        audit_entries_of(audit_line_of(timestamp, action, status, detail)) == seq![
            (timestamp, action, status, clean_detail(detail)),
        ],
{
    reveal_strlit("\t");
    reveal_strlit("\n");
    let cd = clean_detail(detail);
    lemma_clean_detail_plain(detail);
    let parts = seq![timestamp, action, status, cd];
    let body = join_with(parts, seq!['\t']);
    let t = seq!['\t'];
    let p3 = seq![timestamp, action, status];
    let p2 = seq![timestamp, action];
    let p1 = seq![timestamp];
    assert(parts.drop_last() =~= p3);
    assert(p3.drop_last() =~= p2);
    assert(p2.drop_last() =~= p1);
    assert(join_with(p1, t) == timestamp);
    assert(join_with(p2, t) == timestamp + t + action);
    assert(join_with(p3, t) == join_with(p2, t) + t + status);
    assert(body == join_with(p3, t) + t + cd);
    assert("\t"@ =~= t);
    assert(body =~= timestamp + "\t"@ + action + "\t"@ + status + "\t"@ + cd);
    let line = audit_line_of(timestamp, action, status, detail);
    assert(line =~= body + seq!['\n']);
    assert forall|i: int| 0 <= i < parts.len() implies !(#[trigger] parts[i]).contains('\t') by {}
    lemma_split_join(parts, '\t');
    assert(!body.contains('\n')) by {
        if body.contains('\n') {
            let k = choose|k: int| 0 <= k < body.len() && body[k] == '\n';
            if k < timestamp.len() {
                assert(timestamp[k] == '\n');
            } else if k == timestamp.len() {
            } else if k < timestamp.len() + 1 + action.len() {
                assert(action[k - timestamp.len() - 1] == '\n');
            } else if k == timestamp.len() + 1 + action.len() {
            } else if k < timestamp.len() + 2 + action.len() + status.len() {
                assert(status[k - timestamp.len() - 2 - action.len()] == '\n');
            } else if k == timestamp.len() + 2 + action.len() + status.len() {
            } else {
                assert(cd[k - timestamp.len() - 3 - action.len() - status.len()] == '\n');
            }
        }
    }
    crate::text::lemma_split_plain(body, '\n');
    crate::text::lemma_split_append_sep(body, Seq::<char>::empty(), '\n');
    assert(body + seq!['\n'] + Seq::<char>::empty() =~= line);
    let segs = split_on(line, '\n');
    assert(segs =~= seq![body, Seq::<char>::empty()]);
    assert(body.len() > 0);
    assert(body.last() != '\r') by {
        assert(body.last() == body[body.len() - 1]);
        if cd.len() > 0 {
            assert(body[body.len() - 1] == cd[cd.len() - 1]);
        } else {
            assert(body[body.len() - 1] == '\t');
        }
    }
    assert(lines_of(line) =~= seq![body]);
    assert(split_on(body, '\t') == parts);
    assert(parts.skip(3) =~= seq![cd]);
    assert(parse_audit(body) == Some((timestamp, action, status, cd)));
    assert(seq![body].drop_last() =~= Seq::<Seq<char>>::empty());
    assert(seq![body].last() == body);
    assert(entries_of(seq![body].drop_last()) =~= Seq::<(Seq<char>, Seq<char>, Seq<char>, Seq<char>)>::empty());
    assert(entries_of(seq![body]) =~= seq![(timestamp, action, status, cd)]);
    assert(seq![(timestamp, action, status, cd)].reverse() =~= seq![(timestamp, action, status, cd)]);
}

/// A tab-joined audit line reads back as its fields: when the time stamp,
/// action and status hold no tab, the line `timestamp TAB action TAB status
/// TAB detail` parses to exactly those four fields, whatever the detail holds.
pub proof fn lemma_parse_audit_line_round_trip(timestamp: Seq<char>, action: Seq<char>, status: Seq<char>, detail: Seq<char>)
    requires
        !timestamp.contains('\t'),
        !action.contains('\t'),
        !status.contains('\t'),
    ensures
        parse_audit(timestamp + seq!['\t'] + action + seq!['\t'] + status + seq!['\t'] + detail) == Some(
            (timestamp, action, status, detail),
        ),
{
    let t = seq!['\t'];
    let head = timestamp + t + action + t + status;
    let line = head + t + detail;
    crate::text::lemma_split_plain(timestamp, '\t');
    crate::text::lemma_split_append_sep(timestamp, action, '\t');
    crate::text::lemma_split_append_sep(timestamp + t + action, status, '\t');
    assert(split_on(head, '\t') =~= seq![timestamp, action, status]);
    lemma_split_concat(head, detail, '\t');
    crate::text::lemma_split_nonempty(detail, '\t');
    let p = split_on(line, '\t');
    assert(p == seq![timestamp, action, status] + split_on(detail, '\t'));
    assert(p.skip(3) =~= split_on(detail, '\t'));
    lemma_join_split(detail, '\t');
    assert(line =~= timestamp + seq!['\t'] + action + seq!['\t'] + status + seq!['\t'] + detail);
}

/// Which lines of the audit log are events: a line parses exactly when it
/// holds at least two tabs, and with exactly two its detail is empty.
pub proof fn lemma_parse_audit_fields(line: Seq<char>)
    ensures
        parse_audit(line) is None <==> count_char(line, '\t') < 2,
        count_char(line, '\t') == 2 ==> (parse_audit(line) matches Some(e) && e.3 == Seq::<char>::empty()),
{
    lemma_split_len(line, '\t');
}

// ---------------------------------------------------------------------------
// Credentials
// ---------------------------------------------------------------------------

/// Where each credential of the storage settings is kept in secret storage.
#[derive(Debug, Clone, Copy, PartialEq, Eq, Structural)]
pub enum SecretSlot {
    ServerFtpPassword,
    ServerSftpPassword,
    ServerSftpKeyPassphrase,
    FtpPassword,
    SftpPassword,
    SftpKeyPassphrase,
}

pub open spec fn slot_name(slot: SecretSlot) -> Seq<char> {
    match slot {
        SecretSlot::ServerFtpPassword => "server-ftp-password"@,
        SecretSlot::ServerSftpPassword => "server-sftp-password"@,
        SecretSlot::ServerSftpKeyPassphrase => "server-sftp-key-passphrase"@,
        SecretSlot::FtpPassword => "ftp-password"@,
        SecretSlot::SftpPassword => "sftp-password"@,
        SecretSlot::SftpKeyPassphrase => "sftp-key-passphrase"@,
    }
}

/// The name a credential is stored under.
pub fn secret_name(slot: SecretSlot) -> (r: &'static str)
    ensures
        r@ == slot_name(slot),
{
    match slot {
        SecretSlot::ServerFtpPassword => "server-ftp-password",
        SecretSlot::ServerSftpPassword => "server-sftp-password",
        SecretSlot::ServerSftpKeyPassphrase => "server-sftp-key-passphrase",
        SecretSlot::FtpPassword => "ftp-password",
        SecretSlot::SftpPassword => "sftp-password",
        SecretSlot::SftpKeyPassphrase => "sftp-key-passphrase",
    }
}

/// The credentials in the order they are read and written.
pub open spec fn slot_order() -> Seq<SecretSlot> {
    seq![
        SecretSlot::ServerFtpPassword,
        SecretSlot::ServerSftpPassword,
        SecretSlot::ServerSftpKeyPassphrase,
        SecretSlot::FtpPassword,
        SecretSlot::SftpPassword,
        SecretSlot::SftpKeyPassphrase,
    ]
}

pub fn secret_slots() -> (r: Vec<SecretSlot>)
    ensures
        r@ == slot_order(),
{
    let r = vec![
        SecretSlot::ServerFtpPassword,
        SecretSlot::ServerSftpPassword,
        SecretSlot::ServerSftpKeyPassphrase,
        SecretSlot::FtpPassword,
        SecretSlot::SftpPassword,
        SecretSlot::SftpKeyPassphrase,
    ];
    assert(r@ =~= slot_order());
    r
}

/// The credential of a slot in the storage settings.
pub open spec fn secret_in(s: StorageConfig, slot: SecretSlot) -> Option<String> {
    match slot {
        SecretSlot::ServerFtpPassword => s.server_ftp.password,
        SecretSlot::ServerSftpPassword => s.server_sftp.password,
        SecretSlot::ServerSftpKeyPassphrase => s.server_sftp.private_key_passphrase,
        SecretSlot::FtpPassword => s.ftp.password,
        SecretSlot::SftpPassword => s.sftp.password,
        SecretSlot::SftpKeyPassphrase => s.sftp.private_key_passphrase,
    }
}

/// The storage settings with the credential of a slot replaced.
pub open spec fn with_secret(s: StorageConfig, slot: SecretSlot, v: Option<String>) -> StorageConfig {
    match slot {
        SecretSlot::ServerFtpPassword => StorageConfig { server_ftp: FtpConfig { password: v, ..s.server_ftp }, ..s },
        SecretSlot::ServerSftpPassword => StorageConfig {
            server_sftp: SftpConfig { password: v, ..s.server_sftp },
            ..s
        },
        SecretSlot::ServerSftpKeyPassphrase => StorageConfig {
            server_sftp: SftpConfig { private_key_passphrase: v, ..s.server_sftp },
            ..s
        },
        SecretSlot::FtpPassword => StorageConfig { ftp: FtpConfig { password: v, ..s.ftp }, ..s },
        SecretSlot::SftpPassword => StorageConfig { sftp: SftpConfig { password: v, ..s.sftp }, ..s },
        SecretSlot::SftpKeyPassphrase => StorageConfig {
            sftp: SftpConfig { private_key_passphrase: v, ..s.sftp },
            ..s
        },
    }
}

/// The credential of a slot, to be written to secret storage.
pub fn stored_secret(config: &AppConfig, slot: SecretSlot) -> (r: Option<String>)
    ensures
        r == secret_in(config.storage, slot),
{
    let s = &config.storage;
    let v = match slot {
        SecretSlot::ServerFtpPassword => &s.server_ftp.password,
        SecretSlot::ServerSftpPassword => &s.server_sftp.password,
        SecretSlot::ServerSftpKeyPassphrase => &s.server_sftp.private_key_passphrase,
        SecretSlot::FtpPassword => &s.ftp.password,
        SecretSlot::SftpPassword => &s.sftp.password,
        SecretSlot::SftpKeyPassphrase => &s.sftp.private_key_passphrase,
    };
    crate::config::clone_opt(v)
}

/// Puts a credential read from secret storage into the settings.
pub fn apply_secret(config: &mut AppConfig, slot: SecretSlot, value: Option<String>)
    ensures
        final(config).storage == with_secret(old(config).storage, slot, value),
        final(config).content_types == old(config).content_types,
{
    match slot {
        SecretSlot::ServerFtpPassword => config.storage.server_ftp.password = value,
        SecretSlot::ServerSftpPassword => config.storage.server_sftp.password = value,
        SecretSlot::ServerSftpKeyPassphrase => config.storage.server_sftp.private_key_passphrase = value,
        SecretSlot::FtpPassword => config.storage.ftp.password = value,
        SecretSlot::SftpPassword => config.storage.sftp.password = value,
        SecretSlot::SftpKeyPassphrase => config.storage.sftp.private_key_passphrase = value,
    }
}

/// The storage settings as they are saved to the configuration file: every
/// password and key passphrase left out, everything else kept.
pub open spec fn without_secrets(s: StorageConfig) -> StorageConfig {
    StorageConfig {
        server_ftp: FtpConfig { password: None, ..s.server_ftp },
        server_sftp: SftpConfig { password: None, private_key_passphrase: None, ..s.server_sftp },
        ftp: FtpConfig { password: None, ..s.ftp },
        sftp: SftpConfig { password: None, private_key_passphrase: None, ..s.sftp },
        ..s
    }
}

pub fn storage_without_secrets(storage: StorageConfig) -> (r: StorageConfig)
    ensures
        r == without_secrets(storage),
{
    let mut storage = storage;
    storage.server_ftp.password = None;
    storage.server_sftp.password = None;
    storage.server_sftp.private_key_passphrase = None;
    storage.ftp.password = None;
    storage.sftp.password = None;
    storage.sftp.private_key_passphrase = None;
    storage
}

/// The settings after each slot's credential, in order, was put in.
pub open spec fn with_secrets(s: StorageConfig, slots: Seq<SecretSlot>, values: Seq<Option<String>>) -> StorageConfig
    decreases slots.len(),
{
    if slots.len() == 0 {
        s
    } else {
        with_secret(with_secrets(s, slots.drop_last(), values), slots.last(), values[slots.len() - 1])
    }
}

/// Saved settings hold no credential, in any slot.
pub proof fn lemma_saved_settings_hold_no_secret(s: StorageConfig, slot: SecretSlot)
    ensures
        secret_in(without_secrets(s), slot) is None,
{
}

/// Saving and loading gives the settings back: the saved settings, with each
/// credential that was stored for them put back in the order they are read,
/// equal the settings that were saved.
pub proof fn lemma_secrets_round_trip(s: StorageConfig)
    ensures
        with_secrets(
            without_secrets(s),
            slot_order(),
            slot_order().map_values(|slot: SecretSlot| secret_in(s, slot)),
        ) == s,
{
    let order = slot_order();
    let values = order.map_values(|slot: SecretSlot| secret_in(s, slot));
    assert(order.drop_last().drop_last().drop_last().drop_last().drop_last().drop_last() =~= Seq::<SecretSlot>::empty());
    assert(values[0] == s.server_ftp.password);
    assert(values[1] == s.server_sftp.password);
    assert(values[2] == s.server_sftp.private_key_passphrase);
    assert(values[3] == s.ftp.password);
    assert(values[4] == s.sftp.password);
    assert(values[5] == s.sftp.private_key_passphrase);
    reveal_with_fuel(with_secrets, 7);
}

/// What secret storage keeps of a credential that was written: a non-empty
/// text is stored; nothing, or an empty text, deletes it.
pub open spec fn kept_secret(o: Option<Seq<char>>) -> Option<Seq<char>> {
    match o {
        Some(v) => if v.len() > 0 {
            Some(v)
        } else {
            None
        },
        None => None,
    }
}

/// Saving the settings and loading them back through secret storage gives
/// each credential back as the store kept it (an empty one as none) and
/// leaves every other setting as saved: when the credentials read, in the
/// order they are read, are what the store kept of the settings that were
/// saved, putting them into the saved settings gives those credentials in
/// their slots and the saved settings everywhere else.
pub proof fn lemma_stored_secrets_round_trip(s: StorageConfig, values: Seq<Option<String>>)
    requires
        values.len() == 6,
        forall|i: int| 0 <= i < 6 ==> #[trigger] opt_view(values[i]) == kept_secret(opt_view(secret_in(s, slot_order()[i]))),
    ensures
        forall|slot: SecretSlot|
            opt_view(#[trigger] secret_in(with_secrets(without_secrets(s), slot_order(), values), slot))
                == kept_secret(opt_view(secret_in(s, slot))),
        without_secrets(with_secrets(without_secrets(s), slot_order(), values)) == without_secrets(s),
{
    let order = slot_order();
    let r = with_secrets(without_secrets(s), order, values);
    assert(order.drop_last().drop_last().drop_last().drop_last().drop_last().drop_last() =~= Seq::<SecretSlot>::empty());
    reveal_with_fuel(with_secrets, 7);
    assert(r.server_ftp.password == values[0]);
    assert(r.server_sftp.password == values[1]);
    assert(r.server_sftp.private_key_passphrase == values[2]);
    assert(r.ftp.password == values[3]);
    assert(r.sftp.password == values[4]);
    assert(r.sftp.private_key_passphrase == values[5]);
    assert(opt_view(values[0]) == kept_secret(opt_view(secret_in(s, order[0]))));
    assert(opt_view(values[1]) == kept_secret(opt_view(secret_in(s, order[1]))));
    assert(opt_view(values[2]) == kept_secret(opt_view(secret_in(s, order[2]))));
    assert(opt_view(values[3]) == kept_secret(opt_view(secret_in(s, order[3]))));
    assert(opt_view(values[4]) == kept_secret(opt_view(secret_in(s, order[4]))));
    assert(opt_view(values[5]) == kept_secret(opt_view(secret_in(s, order[5]))));
    assert forall|slot: SecretSlot|
        opt_view(#[trigger] secret_in(r, slot)) == kept_secret(opt_view(secret_in(s, slot))) by {
        match slot {
            SecretSlot::ServerFtpPassword => {},
            SecretSlot::ServerSftpPassword => {},
            SecretSlot::ServerSftpKeyPassphrase => {},
            SecretSlot::FtpPassword => {},
            SecretSlot::SftpPassword => {},
            SecretSlot::SftpKeyPassphrase => {},
        }
    }
    assert(without_secrets(r) == without_secrets(s));
}

} // verus!
