//! Archive verification: checksum validation and structural integrity checks.

use vstd::prelude::*;
use crate::header::{EntryType, HeaderView, TarHeader};
use crate::reader::{
    content_fits, entries_view, lemma_read_content_fits, read_outcome, EntryView, ReadOutcome,
    ReadState, TarEntry,
};
use crate::text::{chars_of, dec, TextBuf};

verus! {

/// Verification report for an archive.
#[derive(Debug)]
pub struct VerifyReport {
    pub total_entries: usize,
    pub valid_checksums: usize,
    pub invalid_checksums: usize,
    pub issues: Vec<VerifyIssue>,
    pub overall_status: VerifyStatus,
}

/// A single verification issue.
#[derive(Debug, Clone)]
pub struct VerifyIssue {
    pub severity: IssueSeverity,
    pub entry_name: String,
    pub message: String,
}

/// Issue severity levels.
#[derive(Debug, Clone, Copy, PartialEq, Eq, Structural)]
pub enum IssueSeverity {
    Error,
    Warning,
    Info,
}

/// Overall verification status.
#[derive(Debug, Clone, Copy, PartialEq, Eq, Structural)]
pub enum VerifyStatus {
    Pass,
    Fail,
    Warning,
}

/// An issue as plain values: severity, entry name and message.
pub type IssueView = (IssueSeverity, Seq<char>, Seq<char>);

impl View for VerifyIssue {
    type V = IssueView;

    open spec fn view(&self) -> IssueView {
        (self.severity, self.entry_name@, self.message@)
    }
}

/// The issues of a list, by their views.
pub open spec fn issues_view(v: Seq<VerifyIssue>) -> Seq<IssueView> {
    v.map_values(|i: VerifyIssue| i@)
}

// ---------------------------------------------------------------------------
// The checks, as plain values
// ---------------------------------------------------------------------------

/// Whether `s` contains two consecutive dots.
pub open spec fn has_dot_dot(s: Seq<char>) -> bool {
    exists|i: int| #[trigger] dots_at(s, i)
}

/// Whether `s` has a dot at `i` and at `i + 1`.
pub open spec fn dots_at(s: Seq<char>, i: int) -> bool {
    0 <= i && i + 1 < s.len() && s[i] == '.' && s[i + 1] == '.'
}

/// Whether `s` begins with a slash.
pub open spec fn starts_with_slash(s: Seq<char>) -> bool {
    s.len() > 0 && s[0] == '/'
}

/// The issue `(severity, name, message)` where `cond` holds, else none.
pub open spec fn issue_if(cond: bool, sev: IssueSeverity, name: Seq<char>, msg: Seq<char>) -> Seq<
    IssueView,
> {
    if cond {
        seq![(sev, name, msg)]
    } else {
        seq![]
    }
}

/// The names of the special permission bits that are set, joined with `+`.
pub open spec fn special_bits_text(mode: u32) -> Seq<char> {
    if mode & 0o4000 != 0 && mode & 0o2000 != 0 {
        "setuid+setgid"@
    } else if mode & 0o4000 != 0 {
        "setuid"@
    } else {
        "setgid"@
    }
}

/// The issues of the checksum of an entry: an error when it does not match.
pub open spec fn checksum_issues(h: HeaderView) -> Seq<IssueView> {
    issue_if(
        !h.checksum_valid,
        IssueSeverity::Error,
        h.name,
        "checksum mismatch: stored="@ + dec(h.checksum as nat) + ", computed (not shown)"@,
    )
}

/// The issues of an entry other than its checksum, given whether its name was
/// seen before: a repeated name, a path with `..`, an absolute path, mode 0777,
/// special permission bits, content shorter or longer than the header says, and a
/// symlink to an absolute path or through `..`.
pub open spec fn content_issues(e: EntryView, seen_before: bool) -> Seq<IssueView> {
    name_issues(e.header, seen_before) + mode_issues(e.header) + size_issues(e) + link_issues(
        e.header,
    )
}

/// The issues of an entry's name.
pub open spec fn name_issues(h: HeaderView, seen_before: bool) -> Seq<IssueView> {
    let n = h.name;
    issue_if(seen_before, IssueSeverity::Warning, n, "duplicate entry name in archive"@)
        + issue_if(
        has_dot_dot(n),
        IssueSeverity::Error,
        n,
        "path traversal detected (contains '..')"@,
    ) + issue_if(starts_with_slash(n), IssueSeverity::Warning, n, "absolute path in entry name"@)
}

/// The issues of an entry's mode.
pub open spec fn mode_issues(h: HeaderView) -> Seq<IssueView> {
    let mode = h.mode & 0o7777;
    issue_if(
        mode & 0o777 == 0o777,
        IssueSeverity::Warning,
        h.name,
        "world-writable, readable, and executable (0777)"@,
    ) + issue_if(
        mode & 0o6000 != 0,
        IssueSeverity::Info,
        h.name,
        "special permission bits set: "@ + special_bits_text(mode),
    )
}

/// The issues of an entry's content size.
pub open spec fn size_issues(e: EntryView) -> Seq<IssueView> {
    let h = e.header;
    issue_if(
        h.entry_type.spec_is_regular() && h.size > 0 && e.content.len() != h.size as usize,
        IssueSeverity::Error,
        h.name,
        "content size mismatch: header="@ + dec(h.size as nat) + ", actual="@ + dec(
            e.content.len(),
        ),
    )
}

/// The issues of a symlink's target.
pub open spec fn link_issues(h: HeaderView) -> Seq<IssueView> {
    issue_if(
        h.entry_type == EntryType::Symlink && starts_with_slash(h.linkname),
        IssueSeverity::Warning,
        h.name,
        "symlink points to absolute path: "@ + h.linkname,
    ) + issue_if(
        h.entry_type == EntryType::Symlink && has_dot_dot(h.linkname),
        IssueSeverity::Warning,
        h.name,
        "symlink may traverse parent directory: "@ + h.linkname,
    )
}

/// The names of the entries among the first `i` that are not metadata.
pub open spec fn data_names(es: Seq<EntryView>, i: int) -> Seq<Seq<char>>
    decreases i,
{
    if i <= 0 {
        seq![]
    } else if es[i - 1].header.entry_type.spec_is_metadata() {
        data_names(es, i - 1)
    } else {
        data_names(es, i - 1).push(es[i - 1].header.name)
    }
}

/// The issues of entry `i`, after the entries before it.
pub open spec fn entry_issues(es: Seq<EntryView>, i: int) -> Seq<IssueView> {
    let e = es[i];
    if e.header.entry_type.spec_is_metadata() {
        checksum_issues(e.header)
    } else {
        checksum_issues(e.header) + content_issues(e, data_names(es, i).contains(e.header.name))
    }
}

/// The issues of the first `i` entries, in order.
pub open spec fn issues_upto(es: Seq<EntryView>, i: int) -> Seq<IssueView>
    decreases i,
{
    if i <= 0 {
        seq![]
    } else {
        issues_upto(es, i - 1) + entry_issues(es, i - 1)
    }
}

/// The number of the first `i` entries whose checksum matches (or not, by `valid`).
pub open spec fn checksum_count(es: Seq<EntryView>, i: int, valid: bool) -> nat
    decreases i,
{
    if i <= 0 {
        0
    } else {
        checksum_count(es, i - 1, valid) + if es[i - 1].header.checksum_valid == valid {
            1nat
        } else {
            0
        }
    }
}

/// The number of the first `i` entries that are not metadata.
pub open spec fn data_count(es: Seq<EntryView>, i: int) -> nat
    decreases i,
{
    if i <= 0 {
        0
    } else {
        data_count(es, i - 1) + if es[i - 1].header.entry_type.spec_is_metadata() {
            0nat
        } else {
            1
        }
    }
}

/// Whether some issue has the severity.
pub open spec fn has_severity(issues: Seq<IssueView>, sev: IssueSeverity) -> bool {
    exists|i: int| 0 <= i < issues.len() && issues[i].0 == sev
}

/// The overall status: failed with an error or a checksum mismatch, a warning with
/// a warning, else passed.
pub open spec fn spec_status(issues: Seq<IssueView>, invalid: nat) -> VerifyStatus {
    if has_severity(issues, IssueSeverity::Error) || invalid > 0 {
        VerifyStatus::Fail
    } else if has_severity(issues, IssueSeverity::Warning) {
        VerifyStatus::Warning
    } else {
        VerifyStatus::Pass
    }
}

// ---------------------------------------------------------------------------
// Checking
// ---------------------------------------------------------------------------

fn has_dot_dot_exec(s: &str) -> (r: bool)
    ensures
        r == has_dot_dot(s@),
{
    let c = chars_of(s);
    let mut i: usize = 0;
    while i < c.len() && i + 1 < c.len()
        invariant
            c@ == s@,
            i <= c@.len(),
            forall|j: int| 0 <= j < i ==> !#[trigger] dots_at(s@, j),
        decreases c.len() - i,
    {
        if c[i] == '.' && c[i + 1] == '.' {
            assert(dots_at(s@, i as int));
            return true;
        }
        i = i + 1;
    }
    assert forall|j: int| !dots_at(s@, j) by {
        if 0 <= j && j + 1 < s@.len() {
            assert(j < i);
        }
    }
    false
}

fn starts_with_slash_exec(s: &str) -> (r: bool)
    ensures
        r == starts_with_slash(s@),
{
    let n = s.unicode_len();
    n > 0 && s.get_char(0) == '/'
}

fn issue(sev: IssueSeverity, name: &String, message: String) -> (i: VerifyIssue)
    ensures
        i@ == (sev, name@, message@),
{
    VerifyIssue { severity: sev, entry_name: name.clone(), message }
}

fn text2(a: &str, b: &str) -> (s: String)
    ensures
        s@ == a@ + b@,
{
    let mut t = TextBuf::new();
    t.push_str(a);
    t.push_str(b);
    t.into_string()
}

fn dec_between(a: &str, n: u64, b: &str) -> (s: String)
    ensures
        s@ == a@ + dec(n as nat) + b@,
{
    let mut t = TextBuf::new();
    t.push_str(a);
    t.push_dec(n);
    t.push_str(b);
    t.into_string()
}

fn opt_issue(cond: bool, sev: IssueSeverity, name: &String, message: String) -> (r: Vec<VerifyIssue>)
    ensures
        issues_view(r@) == issue_if(cond, sev, name@, message@),
{
    let mut v: Vec<VerifyIssue> = Vec::new();
    if cond {
        v.push(issue(sev, name, message));
    }
    assert(issues_view(v@) =~= issue_if(cond, sev, name@, message@));
    v
}

fn join_issues(a: Vec<VerifyIssue>, b: Vec<VerifyIssue>) -> (r: Vec<VerifyIssue>)
    ensures
        issues_view(r@) == issues_view(a@) + issues_view(b@),
{
    let mut a = a;
    let mut b = b;
    let ghost av = issues_view(a@);
    let ghost bv = issues_view(b@);
    a.append(&mut b);
    assert(issues_view(a@) =~= av + bv);
    a
}

fn name_issues_exec(h: &TarHeader, seen_before: bool) -> (r: Vec<VerifyIssue>)
    ensures
        issues_view(r@) == name_issues(h@, seen_before),
{
    let name = &h.name;
    let a = opt_issue(
        seen_before,
        IssueSeverity::Warning,
        name,
        "duplicate entry name in archive".to_owned(),
    );
    let b = opt_issue(
        has_dot_dot_exec(name.as_str()),
        IssueSeverity::Error,
        name,
        "path traversal detected (contains '..')".to_owned(),
    );
    let c = opt_issue(
        starts_with_slash_exec(name.as_str()),
        IssueSeverity::Warning,
        name,
        "absolute path in entry name".to_owned(),
    );
    join_issues(join_issues(a, b), c)
}

fn mode_issues_exec(h: &TarHeader) -> (r: Vec<VerifyIssue>)
    ensures
        issues_view(r@) == mode_issues(h@),
{
    let mode = h.mode & 0o7777;
    let a = opt_issue(
        mode & 0o777 == 0o777,
        IssueSeverity::Warning,
        &h.name,
        "world-writable, readable, and executable (0777)".to_owned(),
    );
    let bits = if mode & 0o4000 != 0 && mode & 0o2000 != 0 {
        "setuid+setgid"
    } else if mode & 0o4000 != 0 {
        "setuid"
    } else {
        "setgid"
    };
    let b = opt_issue(
        mode & 0o6000 != 0,
        IssueSeverity::Info,
        &h.name,
        text2("special permission bits set: ", bits),
    );
    join_issues(a, b)
}

fn size_issues_exec(e: &TarEntry) -> (r: Vec<VerifyIssue>)
    ensures
        issues_view(r@) == size_issues(e@),
{
    let h = &e.header;
    let mut t = TextBuf::new();
    t.push_str("content size mismatch: header=");
    t.push_dec(h.size);
    t.push_str(", actual=");
    t.push_dec(e.content.len() as u64);
    opt_issue(
        h.entry_type.is_regular() && h.size > 0 && e.content.len() != h.size as usize,
        IssueSeverity::Error,
        &h.name,
        t.into_string(),
    )
}

fn link_issues_exec(h: &TarHeader) -> (r: Vec<VerifyIssue>)
    ensures
        issues_view(r@) == link_issues(h@),
{
    let symlink = h.entry_type == EntryType::Symlink;
    let a = opt_issue(
        symlink && starts_with_slash_exec(h.linkname.as_str()),
        IssueSeverity::Warning,
        &h.name,
        text2("symlink points to absolute path: ", h.linkname.as_str()),
    );
    let b = opt_issue(
        symlink && has_dot_dot_exec(h.linkname.as_str()),
        IssueSeverity::Warning,
        &h.name,
        text2("symlink may traverse parent directory: ", h.linkname.as_str()),
    );
    join_issues(a, b)
}

/// The issues of an entry other than its checksum.
fn content_issues_exec(e: &TarEntry, seen_before: bool) -> (r: Vec<VerifyIssue>)
    ensures
        issues_view(r@) == content_issues(e@, seen_before),
{
    let a = name_issues_exec(&e.header, seen_before);
    let b = mode_issues_exec(&e.header);
    let c = size_issues_exec(e);
    let d = link_issues_exec(&e.header);
    join_issues(join_issues(join_issues(a, b), c), d)
}

/// The issues of one entry, after those before it; the names seen so far grow by
/// its name when it is not metadata.
fn check_entry(
    entry: &TarEntry,
    Ghost(es): Ghost<Seq<EntryView>>,
    i: usize,
    seen_names: &mut Vec<String>,
) -> (r: Vec<VerifyIssue>)
    requires
        0 <= i < es.len(),
        es[i as int] == entry@,
        old(seen_names)@.map_values(|s: String| s@) == data_names(es, i as int),
    ensures
        issues_view(r@) == entry_issues(es, i as int),
        final(seen_names)@.map_values(|s: String| s@) == data_names(es, i + 1),
{
    let cs = if !entry.header.checksum_valid {
        let msg = dec_between(
            "checksum mismatch: stored=",
            entry.header.checksum as u64,
            ", computed (not shown)",
        );
        opt_issue(true, IssueSeverity::Error, &entry.header.name, msg)
    } else {
        Vec::new()
    };
    assert(issues_view(cs@) =~= checksum_issues(entry.header@));
    if entry.header.entry_type.is_metadata() {
        return cs;
    }
    let seen = seen_contains(seen_names, &entry.header.name);
    let rest = content_issues_exec(entry, seen);
    let ghost old_names = seen_names@.map_values(|s: String| s@);
    seen_names.push(entry.header.name.clone());
    assert(seen_names@.map_values(|s: String| s@) =~= old_names.push(entry.header.name@));
    join_issues(cs, rest)
}

/// Whether `name` is in `seen`.
fn seen_contains(seen: &Vec<String>, name: &String) -> (r: bool)
    ensures
        r == seen@.map_values(|s: String| s@).contains(name@),
{
    let ghost sv = seen@.map_values(|s: String| s@);
    for i in 0..seen.len()
        invariant
            sv == seen@.map_values(|s: String| s@),
            forall|j: int| 0 <= j < i ==> sv[j] != name@,
    {
        if seen[i] == *name {
            assert(sv[i as int] == name@);
            return true;
        }
    }
    false
}

/// Verify an archive's integrity.
pub fn verify_archive(entries: &[TarEntry]) -> (report: VerifyReport)
    ensures
        report.total_entries == data_count(entries_view(entries@), entries@.len() as int),
        report.valid_checksums == checksum_count(entries_view(entries@), entries@.len() as int, true),
        report.invalid_checksums == checksum_count(
            entries_view(entries@),
            entries@.len() as int,
            false,
        ),
        issues_view(report.issues@) == issues_upto(entries_view(entries@), entries@.len() as int),
        report.overall_status == spec_status(
            issues_view(report.issues@),
            report.invalid_checksums as nat,
        ),
{
    let ghost es = entries_view(entries@);
    let mut issues: Vec<VerifyIssue> = Vec::new();
    let mut valid_checksums: usize = 0;
    let mut invalid_checksums: usize = 0;
    let mut total_entries: usize = 0;
    let mut seen_names: Vec<String> = Vec::new();
    for i in 0..entries.len()
        invariant
            es == entries_view(entries@),
            es.len() == entries@.len(),
            valid_checksums == checksum_count(es, i as int, true),
            invalid_checksums == checksum_count(es, i as int, false),
            total_entries == data_count(es, i as int),
            valid_checksums + invalid_checksums == i,
            total_entries <= i,
            seen_names@.map_values(|s: String| s@) == data_names(es, i as int),
            issues_view(issues@) == issues_upto(es, i as int),
    {
        let entry = &entries[i];
        assert(es[i as int] == entry@);
        if entry.header.checksum_valid {
            valid_checksums = valid_checksums + 1;
        } else {
            invalid_checksums = invalid_checksums + 1;
        }
        if !entry.header.entry_type.is_metadata() {
            total_entries = total_entries + 1;
        }
        let found = check_entry(entry, Ghost(es), i, &mut seen_names);
        let ghost before = issues_view(issues@);
        issues = join_issues(issues, found);
    }
    let ghost iv = issues_view(issues@);
    let mut has_errors = false;
    let mut has_warnings = false;
    for k in 0..issues.len()
        invariant
            iv == issues_view(issues@),
            has_errors == exists|j: int| 0 <= j < k && iv[j].0 == IssueSeverity::Error,
            has_warnings == exists|j: int| 0 <= j < k && iv[j].0 == IssueSeverity::Warning,
    {
        assert(iv[k as int].0 == issues[k as int].severity);
        if issues[k].severity == IssueSeverity::Error {
            has_errors = true;
        }
        if issues[k].severity == IssueSeverity::Warning {
            has_warnings = true;
        }
    }
    let overall_status = if has_errors || invalid_checksums > 0 {
        VerifyStatus::Fail
    } else if has_warnings {
        VerifyStatus::Warning
    } else {
        VerifyStatus::Pass
    };
    VerifyReport { total_entries, valid_checksums, invalid_checksums, issues, overall_status }
}


// ---------------------------------------------------------------------------
// Laws
// ---------------------------------------------------------------------------

/// Every entry's checksum is counted once, as valid or as invalid.
pub proof fn lemma_checksum_counts(es: Seq<EntryView>, n: int)
    requires
        0 <= n <= es.len(),
    ensures
        checksum_count(es, n, true) + checksum_count(es, n, false) == n,
    decreases n,
{
    if n > 0 {
        lemma_checksum_counts(es, n - 1);
    }
}

proof fn lemma_issues_prefix(es: Seq<EntryView>, i: int, n: int)
    requires
        0 <= i <= n <= es.len(),
    ensures
        issues_upto(es, i).len() <= issues_upto(es, n).len(),
        forall|k: int|
            0 <= k < issues_upto(es, i).len() ==> #[trigger] issues_upto(es, n)[k]
                == issues_upto(es, i)[k],
    decreases n - i,
{
    if i < n {
        lemma_issues_prefix(es, i, n - 1);
    }
}

/// Every issue found in an entry is in the report of any longer run of entries,
/// the issues of earlier entries coming first.
pub proof fn lemma_entry_issues_reported(es: Seq<EntryView>, i: int, n: int)
    requires
        0 <= i < n <= es.len(),
    ensures
        forall|x: IssueView| #[trigger]
            entry_issues(es, i).contains(x) ==> issues_upto(es, n).contains(x),
{
    lemma_issues_prefix(es, i + 1, n);
    let before = issues_upto(es, i);
    let mine = entry_issues(es, i);
    assert forall|x: IssueView| #[trigger] mine.contains(x) implies issues_upto(es, n).contains(
        x,
    ) by {
        let k = choose|k: int| 0 <= k < mine.len() && mine[k] == x;
        assert(issues_upto(es, i + 1)[before.len() + k] == x);
        assert(issues_upto(es, n)[before.len() + k] == x);
    }
}

/// An entry whose name climbs out through `..` is reported as an error, which fails
/// the archive.
pub proof fn lemma_path_traversal_fails(es: Seq<EntryView>, i: int)
    requires
        0 <= i < es.len(),
        !es[i].header.entry_type.spec_is_metadata(),
        has_dot_dot(es[i].header.name),
    ensures
        issues_upto(es, es.len() as int).contains(
            (
                IssueSeverity::Error,
                es[i].header.name,
                "path traversal detected (contains '..')"@,
            ),
        ),
        forall|invalid: nat|
            spec_status(issues_upto(es, es.len() as int), invalid) == VerifyStatus::Fail,
{
    let x = (IssueSeverity::Error, es[i].header.name, "path traversal detected (contains '..')"@);
    let h = es[i].header;
    let seen = data_names(es, i).contains(h.name);
    let ni = name_issues(h, seen);
    let d = issue_if(seen, IssueSeverity::Warning, h.name, "duplicate entry name in archive"@);
    assert(ni[d.len() as int] == x);
    let ci = content_issues(es[i], seen);
    assert(ci[d.len() as int] == x);
    let all = entry_issues(es, i);
    let c = checksum_issues(h);
    assert(all[(c.len() + d.len()) as int] == x);
    assert(all.contains(x));
    lemma_entry_issues_reported(es, i, es.len() as int);
    let rep = issues_upto(es, es.len() as int);
    let k = choose|k: int| 0 <= k < rep.len() && rep[k] == x;
    assert(rep[k].0 == IssueSeverity::Error);
}

/// A symlink that points to an absolute path is always reported: every entry that
/// is not metadata, is a symlink and whose target begins with `/` gets a warning
/// naming the entry and its target, so such an archive never passes.
pub proof fn lemma_absolute_symlink_warns(es: Seq<EntryView>, i: int)
    requires
        0 <= i < es.len(),
        !es[i].header.entry_type.spec_is_metadata(),
        es[i].header.entry_type == EntryType::Symlink,
        es[i].header.linkname.len() > 0,
        es[i].header.linkname[0] == '/',
    ensures
        issues_upto(es, es.len() as int).contains(
            (
                IssueSeverity::Warning,
                es[i].header.name,
                "symlink points to absolute path: "@ + es[i].header.linkname,
            ),
        ),
        forall|invalid: nat|
            spec_status(issues_upto(es, es.len() as int), invalid) != VerifyStatus::Pass,
{
    let h = es[i].header;
    let x = (IssueSeverity::Warning, h.name, "symlink points to absolute path: "@ + h.linkname);
    let seen = data_names(es, i).contains(h.name);
    let c = checksum_issues(h);
    let ni = name_issues(h, seen);
    let mi = mode_issues(h);
    let si = size_issues(es[i]);
    let li = link_issues(h);
    assert(li[0] == x);
    let all = entry_issues(es, i);
    assert(all == c + (ni + mi + si + li));
    assert(all[(c.len() + ni.len() + mi.len() + si.len()) as int] == x);
    assert(all.contains(x));
    lemma_entry_issues_reported(es, i, es.len() as int);
    let rep = issues_upto(es, es.len() as int);
    let k = choose|k: int| 0 <= k < rep.len() && rep[k] == x;
    assert(rep[k].0 == IssueSeverity::Warning);
}

/// An archive passes exactly when no issue is an error or a warning and every
/// checksum matches.
pub proof fn lemma_pass_iff_clean(issues: Seq<IssueView>, invalid: nat)
    ensures
        spec_status(issues, invalid) == VerifyStatus::Pass <==> (!has_severity(
            issues,
            IssueSeverity::Error,
        ) && !has_severity(issues, IssueSeverity::Warning) && invalid == 0),
{
}

/// An archive as read never shows a content size mismatch: verification finds the
/// content of every entry as long as its header says.
pub proof fn lemma_read_archive_sizes_match(data: Seq<u8>)
    ensures
        read_outcome(data) matches ReadOutcome::Entries(es) ==> forall|i: int|
            0 <= i < es.len() && !es[i].header.entry_type.spec_is_metadata() ==> #[trigger] size_issues(
                es[i],
            ) == Seq::<IssueView>::empty(),
{
    lemma_read_content_fits(data, ReadState { pos: 0, pax: seq![], long_name: None, long_link: None });
    if let ReadOutcome::Entries(es) = read_outcome(data) {
        assert forall|i: int|
            0 <= i < es.len() && !es[i].header.entry_type.spec_is_metadata() implies #[trigger] size_issues(
                es[i],
            ) == Seq::<IssueView>::empty() by {
            assert(content_fits(es[i]));
        }
    }
}

/// Whether an entry by itself fails the archive: its checksum does not match, or,
/// where it is not metadata, its name climbs out through `..` or its content is not
/// as long as its header says.
pub open spec fn error_cause(e: EntryView) -> bool {
    let h = e.header;
    !h.checksum_valid || (!h.entry_type.spec_is_metadata() && (has_dot_dot(h.name) || (
    h.entry_type.spec_is_regular() && h.size > 0 && e.content.len() != h.size as usize)))
}

proof fn lemma_has_severity_concat(a: Seq<IssueView>, b: Seq<IssueView>, sev: IssueSeverity)
    ensures
        has_severity(a + b, sev) <==> has_severity(a, sev) || has_severity(b, sev),
{
    let c = a + b;
    if has_severity(c, sev) {
        let j = choose|j: int| 0 <= j < c.len() && c[j].0 == sev;
        if j < a.len() {
            assert(a[j] == c[j]);
        } else {
            assert(b[j - a.len()] == c[j]);
        }
    }
    if has_severity(a, sev) {
        let j = choose|j: int| 0 <= j < a.len() && a[j].0 == sev;
        assert(c[j] == a[j]);
    }
    if has_severity(b, sev) {
        let j = choose|j: int| 0 <= j < b.len() && b[j].0 == sev;
        assert(c[a.len() + j] == b[j]);
    }
}

proof fn lemma_issue_if_severity(
    cond: bool,
    s: IssueSeverity,
    name: Seq<char>,
    msg: Seq<char>,
    sev: IssueSeverity,
)
    ensures
        has_severity(issue_if(cond, s, name, msg), sev) <==> cond && s == sev,
{
    if cond && s == sev {
        assert(issue_if(cond, s, name, msg)[0].0 == sev);
    }
}

/// The severities an entry's issues carry: an error exactly where the entry by
/// itself fails the archive.
proof fn lemma_entry_error(es: Seq<EntryView>, i: int)
    requires
        0 <= i < es.len(),
    ensures
        has_severity(entry_issues(es, i), IssueSeverity::Error) <==> error_cause(es[i]),
{
    let e = es[i];
    let h = e.header;
    let err = IssueSeverity::Error;
    let c = checksum_issues(h);
    lemma_issue_if_severity(
        !h.checksum_valid,
        IssueSeverity::Error,
        h.name,
        "checksum mismatch: stored="@ + dec(h.checksum as nat) + ", computed (not shown)"@,
        err,
    );
    if !h.entry_type.spec_is_metadata() {
        let seen = data_names(es, i).contains(h.name);
        let n = h.name;
        let d = issue_if(seen, IssueSeverity::Warning, n, "duplicate entry name in archive"@);
        let t = issue_if(
            has_dot_dot(n),
            IssueSeverity::Error,
            n,
            "path traversal detected (contains '..')"@,
        );
        let a = issue_if(starts_with_slash(n), IssueSeverity::Warning, n, "absolute path in entry name"@);
        lemma_issue_if_severity(seen, IssueSeverity::Warning, n, "duplicate entry name in archive"@, err);
        lemma_issue_if_severity(
            has_dot_dot(n),
            IssueSeverity::Error,
            n,
            "path traversal detected (contains '..')"@,
            err,
        );
        lemma_issue_if_severity(starts_with_slash(n), IssueSeverity::Warning, n, "absolute path in entry name"@, err);
        lemma_has_severity_concat(d, t, err);
        lemma_has_severity_concat(d + t, a, err);
        let mode = h.mode & 0o7777;
        let w = issue_if(
            mode & 0o777 == 0o777,
            IssueSeverity::Warning,
            h.name,
            "world-writable, readable, and executable (0777)"@,
        );
        let sp = issue_if(
            mode & 0o6000 != 0,
            IssueSeverity::Info,
            h.name,
            "special permission bits set: "@ + special_bits_text(mode),
        );
        lemma_issue_if_severity(
            mode & 0o777 == 0o777,
            IssueSeverity::Warning,
            h.name,
            "world-writable, readable, and executable (0777)"@,
            err,
        );
        lemma_issue_if_severity(
            mode & 0o6000 != 0,
            IssueSeverity::Info,
            h.name,
            "special permission bits set: "@ + special_bits_text(mode),
            err,
        );
        lemma_has_severity_concat(w, sp, err);
        lemma_issue_if_severity(
            h.entry_type.spec_is_regular() && h.size > 0 && e.content.len() != h.size as usize,
            IssueSeverity::Error,
            h.name,
            "content size mismatch: header="@ + dec(h.size as nat) + ", actual="@ + dec(
                e.content.len(),
            ),
            err,
        );
        let l1 = issue_if(
            h.entry_type == EntryType::Symlink && starts_with_slash(h.linkname),
            IssueSeverity::Warning,
            h.name,
            "symlink points to absolute path: "@ + h.linkname,
        );
        let l2 = issue_if(
            h.entry_type == EntryType::Symlink && has_dot_dot(h.linkname),
            IssueSeverity::Warning,
            h.name,
            "symlink may traverse parent directory: "@ + h.linkname,
        );
        lemma_issue_if_severity(
            h.entry_type == EntryType::Symlink && starts_with_slash(h.linkname),
            IssueSeverity::Warning,
            h.name,
            "symlink points to absolute path: "@ + h.linkname,
            err,
        );
        lemma_issue_if_severity(
            h.entry_type == EntryType::Symlink && has_dot_dot(h.linkname),
            IssueSeverity::Warning,
            h.name,
            "symlink may traverse parent directory: "@ + h.linkname,
            err,
        );
        lemma_has_severity_concat(l1, l2, err);
        let ni = name_issues(h, seen);
        let mi = mode_issues(h);
        let si = size_issues(e);
        let li = link_issues(h);
        lemma_has_severity_concat(ni, mi, err);
        lemma_has_severity_concat(ni + mi, si, err);
        lemma_has_severity_concat(ni + mi + si, li, err);
        lemma_has_severity_concat(c, content_issues(e, seen), err);
    }
}

proof fn lemma_errors_upto(es: Seq<EntryView>, n: int)
    requires
        0 <= n <= es.len(),
    ensures
        has_severity(issues_upto(es, n), IssueSeverity::Error) <==> exists|i: int|
            0 <= i < n && #[trigger] error_cause(es[i]),
        checksum_count(es, n, false) > 0 ==> exists|i: int|
            0 <= i < n && #[trigger] error_cause(es[i]),
    decreases n,
{
    if n > 0 {
        lemma_errors_upto(es, n - 1);
        lemma_entry_error(es, n - 1);
        lemma_has_severity_concat(issues_upto(es, n - 1), entry_issues(es, n - 1), IssueSeverity::Error);
        if exists|i: int| 0 <= i < n && #[trigger] error_cause(es[i]) {
            let i = choose|i: int| 0 <= i < n && #[trigger] error_cause(es[i]);
            if i < n - 1 {
                assert(exists|i: int| 0 <= i < n - 1 && #[trigger] error_cause(es[i]));
            }
        }
        if exists|i: int| 0 <= i < n - 1 && #[trigger] error_cause(es[i]) {
            let i = choose|i: int| 0 <= i < n - 1 && #[trigger] error_cause(es[i]);
            assert(0 <= i < n && error_cause(es[i]));
        }
        if checksum_count(es, n, false) > 0 && checksum_count(es, n - 1, false) == 0 {
            assert(error_cause(es[n - 1]));
        }
    }
}

/// The status of a verification: it fails exactly where some issue is an error,
/// that is where some entry by itself fails the archive; it warns where no issue is
/// an error and some is a warning; and it passes where every issue is for
/// information only.
pub proof fn lemma_status_law(es: Seq<EntryView>)
    ensures
        ({
            let n = es.len() as int;
            let issues = issues_upto(es, n);
            let st = spec_status(issues, checksum_count(es, n, false));
            &&& st == VerifyStatus::Fail <==> has_severity(issues, IssueSeverity::Error)
            &&& st == VerifyStatus::Fail <==> exists|i: int|
                0 <= i < n && #[trigger] error_cause(es[i])
            &&& st == VerifyStatus::Warning <==> !has_severity(issues, IssueSeverity::Error)
                && has_severity(issues, IssueSeverity::Warning)
            &&& st == VerifyStatus::Pass <==> forall|j: int|
                0 <= j < issues.len() ==> #[trigger] issues[j].0 == IssueSeverity::Info
        }),
{
    let n = es.len() as int;
    let issues = issues_upto(es, n);
    lemma_errors_upto(es, n);
    if forall|j: int| 0 <= j < issues.len() ==> #[trigger] issues[j].0 == IssueSeverity::Info {
        if has_severity(issues, IssueSeverity::Error) {
            let j = choose|j: int| 0 <= j < issues.len() && issues[j].0 == IssueSeverity::Error;
            assert(issues[j].0 == IssueSeverity::Info);
        }
        if has_severity(issues, IssueSeverity::Warning) {
            let j = choose|j: int| 0 <= j < issues.len() && issues[j].0 == IssueSeverity::Warning;
            assert(issues[j].0 == IssueSeverity::Info);
        }
    }
    if !has_severity(issues, IssueSeverity::Error) && !has_severity(issues, IssueSeverity::Warning) {
        assert forall|j: int| 0 <= j < issues.len() implies #[trigger] issues[j].0
            == IssueSeverity::Info by {
            if issues[j].0 == IssueSeverity::Error {
                assert(has_severity(issues, IssueSeverity::Error));
            }
            if issues[j].0 == IssueSeverity::Warning {
                assert(has_severity(issues, IssueSeverity::Warning));
            }
        }
    }
}

/// Whether an issue reports a checksum mismatch: its message begins so.
pub open spec fn is_checksum_issue(i: IssueView) -> bool {
    "checksum mismatch"@.is_prefix_of(i.2)
}

/// The number of checksum-mismatch issues.
pub open spec fn checksum_issue_count(is: Seq<IssueView>) -> nat
    decreases is.len(),
{
    if is.len() == 0 {
        0
    } else {
        checksum_issue_count(is.drop_last()) + if is_checksum_issue(is.last()) {
            1nat
        } else {
            0
        }
    }
}

proof fn lemma_checksum_issue_count_concat(a: Seq<IssueView>, b: Seq<IssueView>)
    ensures
        checksum_issue_count(a + b) == checksum_issue_count(a) + checksum_issue_count(b),
    decreases b.len(),
{
    if b.len() == 0 {
        assert(a + b =~= a);
    } else {
        lemma_checksum_issue_count_concat(a, b.drop_last());
        assert((a + b).drop_last() =~= a + b.drop_last());
    }
}

proof fn lemma_issue_if_count(cond: bool, s: IssueSeverity, name: Seq<char>, msg: Seq<char>)
    ensures
        checksum_issue_count(issue_if(cond, s, name, msg)) == if cond && "checksum mismatch"@.is_prefix_of(
            msg,
        ) {
            1nat
        } else {
            0
        },
{
    let one = issue_if(cond, s, name, msg);
    if cond {
        assert(one.drop_last() =~= Seq::<IssueView>::empty());
        assert(one.last() == (s, name, msg));
        assert(checksum_issue_count(one.drop_last()) == 0);
    } else {
        assert(one.len() == 0);
    }
}

/// The issues made by `issue_if` name what they are given.
proof fn lemma_issue_if_names(cond: bool, s: IssueSeverity, name: Seq<char>, msg: Seq<char>)
    ensures
        forall|j: int|
            0 <= j < issue_if(cond, s, name, msg).len() ==> #[trigger] issue_if(
                cond,
                s,
                name,
                msg,
            )[j].1 == name,
{
}

proof fn lemma_names_concat(a: Seq<IssueView>, b: Seq<IssueView>, name: Seq<char>)
    requires
        forall|j: int| 0 <= j < a.len() ==> #[trigger] a[j].1 == name,
        forall|j: int| 0 <= j < b.len() ==> #[trigger] b[j].1 == name,
    ensures
        forall|j: int| 0 <= j < (a + b).len() ==> #[trigger] (a + b)[j].1 == name,
{
    assert forall|j: int| 0 <= j < (a + b).len() implies #[trigger] (a + b)[j].1 == name by {
        if j < a.len() {
            assert((a + b)[j] == a[j]);
        } else {
            assert((a + b)[j] == b[j - a.len()]);
        }
    }
}

/// A message beginning with one of these texts is no checksum mismatch.
proof fn lemma_not_checksum_message(lit: Seq<char>, rest: Seq<char>)
    requires
        lit.len() >= 2,
        lit[0] != 'c' || lit[1] != 'h',
    ensures
        !"checksum mismatch"@.is_prefix_of(lit + rest),
{
    reveal_strlit("checksum mismatch");
    let m = lit + rest;
    if "checksum mismatch"@.is_prefix_of(m) {
        assert(m[0] == "checksum mismatch"@[0]);
        assert(m[1] == "checksum mismatch"@[1]);
    }
}

proof fn lemma_name_issues_clean(h: HeaderView, seen: bool)
    ensures
        checksum_issue_count(name_issues(h, seen)) == 0,
        forall|j: int| 0 <= j < name_issues(h, seen).len() ==> #[trigger] name_issues(h, seen)[j].1
            == h.name,
{
    let n = h.name;
    reveal_strlit("duplicate entry name in archive");
    reveal_strlit("path traversal detected (contains '..')");
    reveal_strlit("absolute path in entry name");
    let m1 = "duplicate entry name in archive"@;
    let m2 = "path traversal detected (contains '..')"@;
    let m3 = "absolute path in entry name"@;
    lemma_not_checksum_message(m1, seq![]);
    assert(m1 + seq![] =~= m1);
    lemma_not_checksum_message(m2, seq![]);
    assert(m2 + seq![] =~= m2);
    lemma_not_checksum_message(m3, seq![]);
    assert(m3 + seq![] =~= m3);
    let d = issue_if(seen, IssueSeverity::Warning, n, m1);
    let t = issue_if(has_dot_dot(n), IssueSeverity::Error, n, m2);
    let a = issue_if(starts_with_slash(n), IssueSeverity::Warning, n, m3);
    lemma_issue_if_count(seen, IssueSeverity::Warning, n, m1);
    lemma_issue_if_count(has_dot_dot(n), IssueSeverity::Error, n, m2);
    lemma_issue_if_count(starts_with_slash(n), IssueSeverity::Warning, n, m3);
    lemma_checksum_issue_count_concat(d, t);
    lemma_checksum_issue_count_concat(d + t, a);
    lemma_issue_if_names(seen, IssueSeverity::Warning, n, m1);
    lemma_issue_if_names(has_dot_dot(n), IssueSeverity::Error, n, m2);
    lemma_issue_if_names(starts_with_slash(n), IssueSeverity::Warning, n, m3);
    lemma_names_concat(d, t, n);
    lemma_names_concat(d + t, a, n);
}

proof fn lemma_mode_issues_clean(h: HeaderView)
    ensures
        checksum_issue_count(mode_issues(h)) == 0,
        forall|j: int| 0 <= j < mode_issues(h).len() ==> #[trigger] mode_issues(h)[j].1 == h.name,
{
    let n = h.name;
    let mode = h.mode & 0o7777;
    reveal_strlit("world-writable, readable, and executable (0777)");
    reveal_strlit("special permission bits set: ");
    let m4 = "world-writable, readable, and executable (0777)"@;
    let m5 = "special permission bits set: "@ + special_bits_text(mode);
    lemma_not_checksum_message(m4, seq![]);
    assert(m4 + seq![] =~= m4);
    lemma_not_checksum_message("special permission bits set: "@, special_bits_text(mode));
    let w = issue_if(mode & 0o777 == 0o777, IssueSeverity::Warning, n, m4);
    let sp = issue_if(mode & 0o6000 != 0, IssueSeverity::Info, n, m5);
    lemma_issue_if_count(mode & 0o777 == 0o777, IssueSeverity::Warning, n, m4);
    lemma_issue_if_count(mode & 0o6000 != 0, IssueSeverity::Info, n, m5);
    lemma_checksum_issue_count_concat(w, sp);
    lemma_issue_if_names(mode & 0o777 == 0o777, IssueSeverity::Warning, n, m4);
    lemma_issue_if_names(mode & 0o6000 != 0, IssueSeverity::Info, n, m5);
    lemma_names_concat(w, sp, n);
}

proof fn lemma_size_issues_clean(e: EntryView)
    ensures
        checksum_issue_count(size_issues(e)) == 0,
        forall|j: int| 0 <= j < size_issues(e).len() ==> #[trigger] size_issues(e)[j].1
            == e.header.name,
{
    let h = e.header;
    reveal_strlit("content size mismatch: header=");
    let rest = dec(h.size as nat) + ", actual="@ + dec(e.content.len());
    let m6 = "content size mismatch: header="@ + dec(h.size as nat) + ", actual="@ + dec(
        e.content.len(),
    );
    lemma_not_checksum_message("content size mismatch: header="@, rest);
    assert(m6 =~= "content size mismatch: header="@ + rest);
    let cond = h.entry_type.spec_is_regular() && h.size > 0 && e.content.len() != h.size as usize;
    lemma_issue_if_count(cond, IssueSeverity::Error, h.name, m6);
    lemma_issue_if_names(cond, IssueSeverity::Error, h.name, m6);
}

proof fn lemma_link_issues_clean(h: HeaderView)
    ensures
        checksum_issue_count(link_issues(h)) == 0,
        forall|j: int| 0 <= j < link_issues(h).len() ==> #[trigger] link_issues(h)[j].1 == h.name,
{
    let n = h.name;
    reveal_strlit("symlink points to absolute path: ");
    reveal_strlit("symlink may traverse parent directory: ");
    let m7 = "symlink points to absolute path: "@ + h.linkname;
    let m8 = "symlink may traverse parent directory: "@ + h.linkname;
    lemma_not_checksum_message("symlink points to absolute path: "@, h.linkname);
    lemma_not_checksum_message("symlink may traverse parent directory: "@, h.linkname);
    let c1 = h.entry_type == EntryType::Symlink && starts_with_slash(h.linkname);
    let c2 = h.entry_type == EntryType::Symlink && has_dot_dot(h.linkname);
    let l1 = issue_if(c1, IssueSeverity::Warning, n, m7);
    let l2 = issue_if(c2, IssueSeverity::Warning, n, m8);
    lemma_issue_if_count(c1, IssueSeverity::Warning, n, m7);
    lemma_issue_if_count(c2, IssueSeverity::Warning, n, m8);
    lemma_checksum_issue_count_concat(l1, l2);
    lemma_issue_if_names(c1, IssueSeverity::Warning, n, m7);
    lemma_issue_if_names(c2, IssueSeverity::Warning, n, m8);
    lemma_names_concat(l1, l2, n);
}

/// The issues of an entry hold one checksum mismatch where its checksum does not
/// match, none otherwise, and all name the entry.
proof fn lemma_entry_checksum_issues(es: Seq<EntryView>, i: int)
    requires
        0 <= i < es.len(),
    ensures
        checksum_issue_count(entry_issues(es, i)) == if es[i].header.checksum_valid {
            0nat
        } else {
            1
        },
        forall|j: int|
            0 <= j < entry_issues(es, i).len() ==> #[trigger] entry_issues(es, i)[j].1
                == es[i].header.name,
{
    let e = es[i];
    let h = e.header;
    let n = h.name;
    reveal_strlit("checksum mismatch");
    reveal_strlit("checksum mismatch: stored=");
    let cm = "checksum mismatch: stored="@ + dec(h.checksum as nat) + ", computed (not shown)"@;
    assert("checksum mismatch"@.is_prefix_of(cm)) by {
        assert(cm.subrange(0, 17) =~= "checksum mismatch"@);
    }
    lemma_issue_if_count(!h.checksum_valid, IssueSeverity::Error, n, cm);
    lemma_issue_if_names(!h.checksum_valid, IssueSeverity::Error, n, cm);
    if !h.entry_type.spec_is_metadata() {
        let seen = data_names(es, i).contains(n);
        lemma_name_issues_clean(h, seen);
        lemma_mode_issues_clean(h);
        lemma_size_issues_clean(e);
        lemma_link_issues_clean(h);
        let ni = name_issues(h, seen);
        let mi = mode_issues(h);
        let si = size_issues(e);
        let li = link_issues(h);
        lemma_checksum_issue_count_concat(ni, mi);
        lemma_checksum_issue_count_concat(ni + mi, si);
        lemma_checksum_issue_count_concat(ni + mi + si, li);
        lemma_names_concat(ni, mi, n);
        lemma_names_concat(ni + mi, si, n);
        lemma_names_concat(ni + mi + si, li, n);
        lemma_checksum_issue_count_concat(checksum_issues(h), content_issues(e, seen));
        lemma_names_concat(checksum_issues(h), content_issues(e, seen), n);
    }
}

proof fn lemma_checksum_issues_upto(es: Seq<EntryView>, n: int)
    requires
        0 <= n <= es.len(),
    ensures
        checksum_issue_count(issues_upto(es, n)) == checksum_count(es, n, false),
        forall|j: int|
            0 <= j < issues_upto(es, n).len() ==> exists|i: int|
                0 <= i < n && #[trigger] issues_upto(es, n)[j].1 == es[i].header.name,
    decreases n,
{
    if n > 0 {
        lemma_checksum_issues_upto(es, n - 1);
        lemma_entry_checksum_issues(es, n - 1);
        let before = issues_upto(es, n - 1);
        let mine = entry_issues(es, n - 1);
        lemma_checksum_issue_count_concat(before, mine);
        assert forall|j: int| 0 <= j < issues_upto(es, n).len() implies exists|i: int|
            0 <= i < n && #[trigger] issues_upto(es, n)[j].1 == es[i].header.name by {
            if j < before.len() {
                assert(issues_upto(es, n)[j] == before[j]);
                let i = choose|i: int| 0 <= i < n - 1 && #[trigger] before[j].1 == es[i].header.name;
                assert(issues_upto(es, n)[j].1 == es[i].header.name);
            } else {
                assert(issues_upto(es, n)[j] == mine[j - before.len()]);
                assert(issues_upto(es, n)[j].1 == es[n - 1].header.name);
            }
        }
    }
}

/// A verification reports one checksum mismatch for every entry whose checksum
/// does not match, and every issue names an entry of the archive.
pub proof fn lemma_checksum_issues_counted(es: Seq<EntryView>)
    ensures
        checksum_issue_count(issues_upto(es, es.len() as int)) == checksum_count(
            es,
            es.len() as int,
            false,
        ),
        forall|j: int|
            0 <= j < issues_upto(es, es.len() as int).len() ==> exists|i: int|
                0 <= i < es.len() && #[trigger] issues_upto(es, es.len() as int)[j].1
                    == es[i].header.name,
{
    lemma_checksum_issues_upto(es, es.len() as int);
}

} // verus!
