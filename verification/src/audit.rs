//! The audit log: one tab-separated line per install or rollback event,
//! appended to `.fastdl-desktop/logs/audit.tsv` under the server root.
use vstd::prelude::*;
use crate::paths::{join_path, join_paths};
use crate::text::{chars_of, concat2, replace_char, replace_chars, string_of};

verus! {

/// The folder of the audit log under a server root.
pub open spec fn audit_dir_of(root: Seq<char>) -> Seq<char> {
    join_path(join_path(root, ".fastdl-desktop"@), "logs"@)
}

/// The folder of the audit log: `.fastdl-desktop/logs` under the server root.
pub fn audit_dir(root: &str) -> (r: String)
    ensures
        r@ == audit_dir_of(root@),
{
    let app = join_paths(root, ".fastdl-desktop");
    join_paths(app.as_str(), "logs")
}

/// The audit log file: `audit.tsv` in the audit folder.
pub fn audit_log_path(root: &str) -> (r: String)
    ensures
        r@ == join_path(audit_dir_of(root@), "audit.tsv"@),
{
    let dir = audit_dir(root);
    join_paths(dir.as_str(), "audit.tsv")
}

/// A detail with every tab, carriage return and line feed made a space, so
/// that it stays one field of one line.
pub open spec fn clean_detail(detail: Seq<char>) -> Seq<char> {
    replace_char(replace_char(replace_char(detail, '\t', ' '), '\r', ' '), '\n', ' ')
}

pub fn clean_audit_detail(detail: &str) -> (r: String)
    ensures
        r@ == clean_detail(detail@),
{
    let v = chars_of(detail);
    let a = replace_chars(v.as_slice(), '\t', ' ');
    let b = replace_chars(a.as_slice(), '\r', ' ');
    let c = replace_chars(b.as_slice(), '\n', ' ');
    string_of(c.as_slice())
}

/// One line of the audit log: time stamp, action, status and cleaned
/// detail, separated by tabs, ending with a line feed.
pub open spec fn audit_line_of(timestamp: Seq<char>, action: Seq<char>, status: Seq<char>, detail: Seq<char>) -> Seq<char> {
    timestamp + "\t"@ + action + "\t"@ + status + "\t"@ + clean_detail(detail) + "\n"@
}

pub fn audit_line(timestamp: &str, action: &str, status: &str, detail: &str) -> (r: String)
    ensures
        r@ == audit_line_of(timestamp@, action@, status@, detail@),
{
    let clean = clean_audit_detail(detail);
    let mut line = concat2(timestamp, "\t");
    line.append(action);
    line.append("\t");
    line.append(status);
    line.append("\t");
    line.append(clean.as_str());
    line.append("\n");
    line
}

/// The line to append for an event now.
pub fn audit_record(action: &str, status: &str, detail: &str) -> (r: String)
    ensures
        exists|timestamp: Seq<char>| r@ == audit_line_of(timestamp, action@, status@, detail@),
{
    let timestamp = crate::storage::now_rfc3339();
    audit_line(timestamp.as_str(), action, status, detail)
}

} // verus!
