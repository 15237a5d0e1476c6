//! Selecting entries by a type filter given on the command line.

use vstd::prelude::*;
use crate::header::EntryType;
use crate::reader::{entries_view, EntryView, TarEntry};
use crate::text::str_eq;

verus! {

/// What `str::to_lowercase` makes of a text: each character replaced by its
/// Unicode lowercase mapping, which depends on the text alone.
pub uninterp spec fn lowercase(s: Seq<char>) -> Seq<char>;

/// Calls `str::to_lowercase`.
#[verifier::external_body]
fn to_lower(s: &str) -> (r: String)
    ensures
        r@ == lowercase(s@),
{
    s.to_lowercase()
}

/// Whether an entry type passes a filter that is already in lower case: `file` or
/// `f` selects regular files, `dir` or `d` directories, `link` or `l` links,
/// `symlink` and `hardlink` those kinds of link, `all` or the empty filter
/// everything, and any other filter nothing.
pub open spec fn spec_matches_lowered(t: EntryType, f: Seq<char>) -> bool {
    if f == "file"@ || f == "f"@ {
        t.spec_is_regular()
    } else if f == "dir"@ || f == "d"@ {
        t.spec_is_directory()
    } else if f == "link"@ || f == "l"@ {
        t.spec_is_link()
    } else if f == "symlink"@ {
        t is Symlink
    } else if f == "hardlink"@ {
        t is HardLink
    } else {
        f == "all"@ || f.len() == 0
    }
}

/// Whether an entry type passes a filter that is already in lower case.
pub fn matches_lowered(entry_type: &EntryType, filter: &str) -> (r: bool)
    ensures
        r == spec_matches_lowered(*entry_type, filter@),
{
    if str_eq(filter, "file") || str_eq(filter, "f") {
        entry_type.is_regular()
    } else if str_eq(filter, "dir") || str_eq(filter, "d") {
        entry_type.is_directory()
    } else if str_eq(filter, "link") || str_eq(filter, "l") {
        entry_type.is_link()
    } else if str_eq(filter, "symlink") {
        matches!(entry_type, EntryType::Symlink)
    } else if str_eq(filter, "hardlink") {
        matches!(entry_type, EntryType::HardLink)
    } else {
        str_eq(filter, "all") || filter.is_empty()
    }
}

/// Whether an entry type passes a type filter, compared without regard to case.
pub fn matches_type(entry_type: &EntryType, filter: &str) -> (r: bool)
    ensures
        r == spec_matches_lowered(*entry_type, lowercase(filter@)),
{
    let lower = to_lower(filter);
    matches_lowered(entry_type, lower.as_str())
}


/// The entries whose type passes the lower-case filter `f`, in archive order.
pub open spec fn selected(es: Seq<EntryView>, f: Seq<char>) -> Seq<EntryView>
    decreases es.len(),
{
    if es.len() == 0 {
        Seq::empty()
    } else {
        let p = selected(es.drop_last(), f);
        if spec_matches_lowered(es.last().header.entry_type, f) {
            p.push(es.last())
        } else {
            p
        }
    }
}

/// Keep the entries whose type passes a filter that is already in lower case, in
/// archive order.
pub fn select_lowered(entries: Vec<TarEntry>, filter: &str) -> (r: Vec<TarEntry>)
    ensures
        entries_view(r@) == selected(entries_view(entries@), filter@),
{
    let ghost orig = entries@;
    let ghost n = orig.len();
    let mut rest = entries;
    let mut stack: Vec<TarEntry> = Vec::new();
    while rest.len() > 0
        invariant
            rest@.len() + stack@.len() == n,
            forall|k: int| 0 <= k < rest@.len() ==> rest@[k] == orig[k],
            forall|k: int| 0 <= k < stack@.len() ==> #[trigger] stack@[k] == orig[n - 1 - k],
        decreases rest@.len(),
    {
        let e = rest.pop().unwrap();
        stack.push(e);
    }
    let mut out: Vec<TarEntry> = Vec::new();
    let ghost ev = entries_view(orig);
    assert(entries_view(out@) =~= selected(ev.take(0), filter@));
    while stack.len() > 0
        invariant
            ev == entries_view(orig),
            n == orig.len(),
            stack@.len() <= n,
            forall|k: int| 0 <= k < stack@.len() ==> #[trigger] stack@[k] == orig[n - 1 - k],
            entries_view(out@) == selected(ev.take(n - stack@.len()), filter@),
        decreases stack@.len(),
    {
        let ghost i = n - stack@.len();
        let e = stack.pop().unwrap();
        assert(e == orig[i]);
        assert(ev.take(i + 1).drop_last() =~= ev.take(i));
        assert(ev[i] == e@);
        if matches_lowered(&e.header.entry_type, filter) {
            let ghost before = out@;
            out.push(e);
            assert(entries_view(out@) =~= entries_view(before).push(ev[i]));
        }
    }
    assert(ev.take(n as int) =~= ev);
    out
}

/// Keep the entries whose type passes a type filter, compared without regard to
/// case, in archive order.
pub fn select_entries(entries: Vec<TarEntry>, filter: &str) -> (r: Vec<TarEntry>)
    ensures
        entries_view(r@) == selected(entries_view(entries@), lowercase(filter@)),
{
    let lower = to_lower(filter);
    select_lowered(entries, lower.as_str())
}

} // verus!
