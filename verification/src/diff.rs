//! Archive diffing: compare two tar archives by entry name.

use vstd::prelude::*;
use vstd::utf8::*;
use crate::header::EntryType;
use crate::reader::{entries_view, EntryView, TarEntry};

verus! {

broadcast use vstd::utf8::encode_utf8_decode_utf8;

/// A single change between two archives.
#[derive(Debug, Clone, PartialEq, Eq)]
pub enum Change {
    /// File added in archive2.
    Added { name: String, entry_type: EntryType, size: u64 },
    /// File removed from archive1.
    Removed { name: String, entry_type: EntryType, size: u64 },
    /// File modified between archives.
    Modified {
        name: String,
        entry_type: EntryType,
        old_size: u64,
        new_size: u64,
        old_mtime: u64,
        new_mtime: u64,
        old_mode: u32,
        new_mode: u32,
        content_changed: bool,
    },
    /// File type changed (e.g., file became directory).
    TypeChanged { name: String, old_type: EntryType, new_type: EntryType },
}

/// A change as plain values.
pub enum ChangeView {
    Added { name: Seq<char>, entry_type: EntryType, size: u64 },
    Removed { name: Seq<char>, entry_type: EntryType, size: u64 },
    Modified {
        name: Seq<char>,
        entry_type: EntryType,
        old_size: u64,
        new_size: u64,
        old_mtime: u64,
        new_mtime: u64,
        old_mode: u32,
        new_mode: u32,
        content_changed: bool,
    },
    TypeChanged { name: Seq<char>, old_type: EntryType, new_type: EntryType },
}

impl View for Change {
    type V = ChangeView;

    open spec fn view(&self) -> ChangeView {
        match self {
            Change::Added { name, entry_type, size } => ChangeView::Added {
                name: name@,
                entry_type: *entry_type,
                size: *size,
            },
            Change::Removed { name, entry_type, size } => ChangeView::Removed {
                name: name@,
                entry_type: *entry_type,
                size: *size,
            },
            Change::Modified {
                name,
                entry_type,
                old_size,
                new_size,
                old_mtime,
                new_mtime,
                old_mode,
                new_mode,
                content_changed,
            } => ChangeView::Modified {
                name: name@,
                entry_type: *entry_type,
                old_size: *old_size,
                new_size: *new_size,
                old_mtime: *old_mtime,
                new_mtime: *new_mtime,
                old_mode: *old_mode,
                new_mode: *new_mode,
                content_changed: *content_changed,
            },
            Change::TypeChanged { name, old_type, new_type } => ChangeView::TypeChanged {
                name: name@,
                old_type: *old_type,
                new_type: *new_type,
            },
        }
    }
}

impl ChangeView {
    /// The entry name a change is about.
    pub open spec fn name(self) -> Seq<char> {
        match self {
            ChangeView::Added { name, .. } => name,
            ChangeView::Removed { name, .. } => name,
            ChangeView::Modified { name, .. } => name,
            ChangeView::TypeChanged { name, .. } => name,
        }
    }
}

/// The changes of a list, by their views.
pub open spec fn changes_view(v: Seq<Change>) -> Seq<ChangeView> {
    v.map_values(|c: Change| c@)
}

/// Result of diffing two archives.
#[derive(Debug)]
pub struct DiffResult {
    pub changes: Vec<Change>,
    pub added_count: usize,
    pub removed_count: usize,
    pub modified_count: usize,
    pub type_changed_count: usize,
    pub unchanged_count: usize,
}

// ---------------------------------------------------------------------------
// Names and their order
// ---------------------------------------------------------------------------

/// Lexicographic order of byte strings, as `String`s compare.
pub open spec fn bytes_lt(a: Seq<u8>, b: Seq<u8>) -> bool
    decreases a.len(),
{
    if a.len() == 0 {
        b.len() > 0
    } else if b.len() == 0 {
        false
    } else if a[0] != b[0] {
        a[0] < b[0]
    } else {
        bytes_lt(a.drop_first(), b.drop_first())
    }
}

/// The order of entry names: by their UTF-8 bytes.
pub open spec fn name_lt(a: Seq<char>, b: Seq<char>) -> bool {
    bytes_lt(encode_utf8(a), encode_utf8(b))
}

proof fn lemma_bytes_lt_trans(a: Seq<u8>, b: Seq<u8>, c: Seq<u8>)
    requires
        bytes_lt(a, b),
        bytes_lt(b, c),
    ensures
        bytes_lt(a, c),
    decreases a.len(),
{
    if a.len() > 0 && b.len() > 0 && c.len() > 0 && a[0] == b[0] && b[0] == c[0] {
        lemma_bytes_lt_trans(a.drop_first(), b.drop_first(), c.drop_first());
    }
}

proof fn lemma_bytes_lt_total(a: Seq<u8>, b: Seq<u8>)
    ensures
        a == b || bytes_lt(a, b) || bytes_lt(b, a),
        !(bytes_lt(a, b) && bytes_lt(b, a)),
    decreases a.len(),
{
    if a.len() > 0 && b.len() > 0 {
        lemma_bytes_lt_total(a.drop_first(), b.drop_first());
        if a[0] == b[0] && a.drop_first() == b.drop_first() {
            assert(a =~= seq![a[0]] + a.drop_first());
            assert(b =~= seq![b[0]] + b.drop_first());
        }
    } else if a.len() == 0 && b.len() == 0 {
        assert(a =~= b);
    }
}

proof fn lemma_bytes_lt_irrefl(a: Seq<u8>)
    ensures
        !bytes_lt(a, a),
    decreases a.len(),
{
    if a.len() > 0 {
        lemma_bytes_lt_irrefl(a.drop_first());
    }
}

/// Names in strictly increasing order.
pub open spec fn names_sorted(cs: Seq<ChangeView>) -> bool {
    forall|i: int, j: int| 0 <= i < j < cs.len() ==> name_lt(cs[i].name(), cs[j].name())
}

proof fn lemma_skip_lt(a: Seq<u8>, b: Seq<u8>, i: int)
    requires
        0 <= i <= a.len(),
        i <= b.len(),
        a.take(i) == b.take(i),
    ensures
        bytes_lt(a, b) == bytes_lt(a.skip(i), b.skip(i)),
    decreases i,
{
    if i > 0 {
        assert(a[0] == a.take(i)[0]);
        assert(b[0] == b.take(i)[0]);
        assert(a.drop_first().take(i - 1) =~= a.take(i).drop_first());
        assert(b.drop_first().take(i - 1) =~= b.take(i).drop_first());
        lemma_skip_lt(a.drop_first(), b.drop_first(), i - 1);
        assert(a.drop_first().skip(i - 1) =~= a.skip(i));
        assert(b.drop_first().skip(i - 1) =~= b.skip(i));
    } else {
        assert(a.skip(0) =~= a);
        assert(b.skip(0) =~= b);
    }
}

/// Whether `a` comes before `b` in the order of names.
fn name_less(a: &String, b: &String) -> (r: bool)
    ensures
        r == name_lt(a@, b@),
{
    let x = a.as_str().as_bytes();
    let y = b.as_str().as_bytes();
    let mut i: usize = 0;
    while i < x.len() && i < y.len() && x[i] == y[i]
        invariant
            i <= x@.len(),
            i <= y@.len(),
            x@.take(i as int) == y@.take(i as int),
        decreases x.len() - i,
    {
        assert(x@.take(i + 1) =~= x@.take(i as int).push(x@[i as int]));
        assert(y@.take(i + 1) =~= y@.take(i as int).push(y@[i as int]));
        i = i + 1;
    }
    proof {
        lemma_skip_lt(x@, y@, i as int);
    }
    if i == x.len() {
        i < y.len()
    } else if i == y.len() {
        false
    } else {
        x[i] < y[i]
    }
}

// ---------------------------------------------------------------------------
// The comparison, as plain values
// ---------------------------------------------------------------------------

/// The last entry among the first `i` of `es` that is not metadata and has name `n`.
pub open spec fn last_named(es: Seq<EntryView>, i: int, n: Seq<char>) -> Option<EntryView>
    decreases i,
{
    if i <= 0 {
        None
    } else if !es[i - 1].header.entry_type.spec_is_metadata() && es[i - 1].header.name == n {
        Some(es[i - 1])
    } else {
        last_named(es, i - 1, n)
    }
}

/// The entry an archive holds under the name `n`: the last one, metadata aside.
pub open spec fn lookup(es: Seq<EntryView>, n: Seq<char>) -> Option<EntryView> {
    last_named(es, es.len() as int, n)
}

/// The change between the entries `a` (first archive) and `b` (second archive) of
/// the same name `n`, if they differ: a type change, or a modification of content,
/// size, mtime or mode.
pub open spec fn compare_entries(n: Seq<char>, a: EntryView, b: EntryView) -> Option<ChangeView> {
    if a.header.entry_type != b.header.entry_type {
        Some(
            ChangeView::TypeChanged {
                name: n,
                old_type: a.header.entry_type,
                new_type: b.header.entry_type,
            },
        )
    } else {
        let cc = a.content != b.content;
        if cc || a.header.size != b.header.size || a.header.mtime != b.header.mtime
            || a.header.mode != b.header.mode {
            Some(
                ChangeView::Modified {
                    name: n,
                    entry_type: b.header.entry_type,
                    old_size: a.header.size,
                    new_size: b.header.size,
                    old_mtime: a.header.mtime,
                    new_mtime: b.header.mtime,
                    old_mode: a.header.mode,
                    new_mode: b.header.mode,
                    content_changed: cc,
                },
            )
        } else {
            None
        }
    }
}

/// The change of the name `n` from the archive `e1` to the archive `e2`, if any.
pub open spec fn change_for(e1: Seq<EntryView>, e2: Seq<EntryView>, n: Seq<char>) -> Option<
    ChangeView,
> {
    match (lookup(e1, n), lookup(e2, n)) {
        (None, None) => None,
        (None, Some(b)) => Some(
            ChangeView::Added { name: n, entry_type: b.header.entry_type, size: b.header.size },
        ),
        (Some(a), None) => Some(
            ChangeView::Removed { name: n, entry_type: a.header.entry_type, size: a.header.size },
        ),
        (Some(a), Some(b)) => compare_entries(n, a, b),
    }
}

/// Whether entry `j` of `es` is the one the archive holds under its name.
pub open spec fn is_rep(es: Seq<EntryView>, j: int) -> bool {
    &&& 0 <= j < es.len()
    &&& !es[j].header.entry_type.spec_is_metadata()
    &&& forall|k: int|
        j < k < es.len() ==> #[trigger] es[k].header.entry_type.spec_is_metadata()
            || es[k].header.name != es[j].header.name
}

/// How a name of the second archive fares: 0 added, 1 type changed, 2 modified,
/// 3 unchanged.
pub open spec fn class_of(e1: Seq<EntryView>, e2: Seq<EntryView>, j: int) -> int {
    let n = e2[j].header.name;
    match lookup(e1, n) {
        None => 0,
        Some(a) => match compare_entries(n, a, e2[j]) {
            Some(ChangeView::TypeChanged { .. }) => 1,
            Some(_) => 2,
            None => 3,
        },
    }
}

/// The number of names among the entries of the second archive before `j` that fare
/// as `c`.
pub open spec fn class_count(e1: Seq<EntryView>, e2: Seq<EntryView>, j: int, c: int) -> nat
    decreases j,
{
    if j <= 0 {
        0
    } else {
        class_count(e1, e2, j - 1, c) + if is_rep(e2, j - 1) && class_of(e1, e2, j - 1) == c {
            1nat
        } else {
            0
        }
    }
}

/// The number of names among the entries of the first archive before `i` that the
/// second archive lacks.
pub open spec fn removed_count(e1: Seq<EntryView>, e2: Seq<EntryView>, i: int) -> nat
    decreases i,
{
    if i <= 0 {
        0
    } else {
        removed_count(e1, e2, i - 1) + if is_rep(e1, i - 1) && lookup(e2, e1[i - 1].header.name)
            is None {
            1nat
        } else {
            0
        }
    }
}


// ---------------------------------------------------------------------------
// Facts about lookup
// ---------------------------------------------------------------------------

proof fn lemma_last_named_skip(es: Seq<EntryView>, j: int, i: int, n: Seq<char>)
    requires
        0 <= j < i <= es.len(),
        forall|k: int|
            j < k < es.len() ==> #[trigger] es[k].header.entry_type.spec_is_metadata()
                || es[k].header.name != n,
    ensures
        last_named(es, i, n) == last_named(es, j + 1, n),
    decreases i - j,
{
    if i > j + 1 {
        assert(es[i - 1].header.entry_type.spec_is_metadata() || es[i - 1].header.name != n);
        lemma_last_named_skip(es, j, i - 1, n);
    }
}

/// The entry that represents its name is what the archive holds under that name.
proof fn lemma_rep_lookup(es: Seq<EntryView>, j: int)
    requires
        is_rep(es, j),
    ensures
        lookup(es, es[j].header.name) == Some(es[j]),
{
    lemma_last_named_skip(es, j, es.len() as int, es[j].header.name);
}

proof fn lemma_last_named_rep(es: Seq<EntryView>, i: int, n: Seq<char>)
    requires
        0 <= i <= es.len(),
        last_named(es, i, n) is Some,
    ensures
        exists|j: int|
            0 <= j < i && es[j] == last_named(es, i, n)->Some_0 && es[j].header.name == n
                && !es[j].header.entry_type.spec_is_metadata() && forall|k: int|
                j < k < i ==> #[trigger] es[k].header.entry_type.spec_is_metadata()
                    || es[k].header.name != n,
    decreases i,
{
    if !es[i - 1].header.entry_type.spec_is_metadata() && es[i - 1].header.name == n {
        assert(forall|k: int|
            i - 1 < k < i ==> #[trigger] es[k].header.entry_type.spec_is_metadata()
                || es[k].header.name != n);
    } else {
        lemma_last_named_rep(es, i - 1, n);
        let j = choose|j: int|
            0 <= j < i - 1 && es[j] == last_named(es, i - 1, n)->Some_0 && es[j].header.name == n
                && !es[j].header.entry_type.spec_is_metadata() && forall|k: int|
                j < k < i - 1 ==> #[trigger] es[k].header.entry_type.spec_is_metadata()
                    || es[k].header.name != n;
        assert(forall|k: int|
            j < k < i ==> #[trigger] es[k].header.entry_type.spec_is_metadata()
                || es[k].header.name != n);
    }
}

/// A name the archive holds has an entry that represents it.
proof fn lemma_lookup_rep(es: Seq<EntryView>, n: Seq<char>)
    requires
        lookup(es, n) is Some,
    ensures
        exists|j: int| is_rep(es, j) && #[trigger] es[j].header.name == n,
{
    lemma_last_named_rep(es, es.len() as int, n);
    let j = choose|j: int|
        0 <= j < es.len() && es[j] == lookup(es, n)->Some_0 && es[j].header.name == n
            && !es[j].header.entry_type.spec_is_metadata() && forall|k: int|
            j < k < es.len() ==> #[trigger] es[k].header.entry_type.spec_is_metadata()
                || es[k].header.name != n;
    assert(is_rep(es, j));
}

/// Two entries that represent the same name are the same entry.
proof fn lemma_rep_unique(es: Seq<EntryView>, a: int, b: int)
    requires
        is_rep(es, a),
        is_rep(es, b),
        es[a].header.name == es[b].header.name,
    ensures
        a == b,
{
    if a < b {
        assert(es[b].header.entry_type.spec_is_metadata() || es[b].header.name != es[a].header.name);
    } else if b < a {
        assert(es[a].header.entry_type.spec_is_metadata() || es[a].header.name != es[b].header.name);
    }
}

// ---------------------------------------------------------------------------
// Diffing
// ---------------------------------------------------------------------------

fn is_rep_exec(es: &[TarEntry], j: usize) -> (r: bool)
    requires
        j < es@.len(),
    ensures
        r == is_rep(entries_view(es@), j as int),
{
    let ghost ev = entries_view(es@);
    if es[j].header.entry_type.is_metadata() {
        return false;
    }
    let mut k = j + 1;
    while k < es.len()
        invariant
            ev == entries_view(es@),
            j < k <= es@.len(),
            !ev[j as int].header.entry_type.spec_is_metadata(),
            forall|m: int|
                j < m < k ==> #[trigger] ev[m].header.entry_type.spec_is_metadata()
                    || ev[m].header.name != ev[j as int].header.name,
        decreases es.len() - k,
    {
        assert(ev[k as int] == es@[k as int]@);
        if !es[k].header.entry_type.is_metadata() && es[k].header.name == es[j].header.name {
            assert(!ev[k as int].header.entry_type.spec_is_metadata() && ev[k as int].header.name
                == ev[j as int].header.name);
            return false;
        }
        k = k + 1;
    }
    true
}

fn lookup_exec(es: &[TarEntry], name: &String) -> (r: Option<usize>)
    ensures
        r matches Some(i) ==> i < es@.len() && lookup(entries_view(es@), name@) == Some(
            entries_view(es@)[i as int],
        ),
        r is None ==> lookup(entries_view(es@), name@) is None,
{
    let ghost ev = entries_view(es@);
    let mut i = es.len();
    while i > 0
        invariant
            ev == entries_view(es@),
            i <= es@.len(),
            lookup(ev, name@) == last_named(ev, i as int, name@),
        decreases i,
    {
        assert(ev[i - 1] == es@[i - 1]@);
        if !es[i - 1].header.entry_type.is_metadata() && es[i - 1].header.name == *name {
            return Some(i - 1);
        }
        i = i - 1;
    }
    None
}

fn bytes_equal(a: &[u8], b: &[u8]) -> (r: bool)
    ensures
        r == (a@ == b@),
{
    if a.len() != b.len() {
        return false;
    }
    for i in 0..a.len()
        invariant
            a@.len() == b@.len(),
            forall|k: int| 0 <= k < i ==> a@[k] == b@[k],
    {
        if a[i] != b[i] {
            return false;
        }
    }
    assert(a@ =~= b@);
    true
}

fn compare_exec(name: &String, a: &TarEntry, b: &TarEntry) -> (r: Option<Change>)
    ensures
        match r {
            Some(c) => compare_entries(name@, a@, b@) == Some(c@),
            None => compare_entries(name@, a@, b@) is None,
        },
{
    if a.header.entry_type != b.header.entry_type {
        return Some(
            Change::TypeChanged {
                name: name.clone(),
                old_type: a.header.entry_type,
                new_type: b.header.entry_type,
            },
        );
    }
    let content_changed = !bytes_equal(a.content.as_slice(), b.content.as_slice());
    if content_changed || a.header.size != b.header.size || a.header.mtime != b.header.mtime
        || a.header.mode != b.header.mode {
        Some(
            Change::Modified {
                name: name.clone(),
                entry_type: b.header.entry_type,
                old_size: a.header.size,
                new_size: b.header.size,
                old_mtime: a.header.mtime,
                new_mtime: b.header.mtime,
                old_mode: a.header.mode,
                new_mode: b.header.mode,
                content_changed,
            },
        )
    } else {
        None
    }
}

/// The name of a change.
fn change_name(change: &Change) -> (n: &String)
    ensures
        n@ == change@.name(),
{
    match change {
        Change::Added { name, .. } => name,
        Change::Removed { name, .. } => name,
        Change::Modified { name, .. } => name,
        Change::TypeChanged { name, .. } => name,
    }
}

/// The names of the changes.
pub open spec fn change_names(cs: Seq<ChangeView>) -> Seq<Seq<char>> {
    cs.map_values(|c: ChangeView| c.name())
}

/// Inserts `c` at its place in the name order.
fn insert_sorted(changes: &mut Vec<Change>, c: Change)
    requires
        names_sorted(changes_view(old(changes)@)),
        !change_names(changes_view(old(changes)@)).contains(c@.name()),
    ensures
        names_sorted(changes_view(final(changes)@)),
        forall|x: ChangeView|
            changes_view(final(changes)@).contains(x) <==> (changes_view(old(changes)@).contains(x)
                || x == c@),
{
    let ghost old_v = changes_view(changes@);
    let mut p: usize = 0;
    while p < changes.len() && name_less(change_name(&changes[p]), change_name(&c))
        invariant
            old_v == changes_view(changes@),
            p <= changes@.len(),
            forall|k: int| 0 <= k < p ==> name_lt(#[trigger] old_v[k].name(), c@.name()),
        decreases changes.len() - p,
    {
        assert(old_v[p as int] == changes@[p as int]@);
        p = p + 1;
    }
    proof {
        if p < old_v.len() {
            assert(old_v[p as int] == changes@[p as int]@);
            assert(change_names(old_v)[p as int] == old_v[p as int].name());
            lemma_bytes_lt_total(encode_utf8(c@.name()), encode_utf8(old_v[p as int].name()));
            if encode_utf8(c@.name()) == encode_utf8(old_v[p as int].name()) {
                assert(decode_utf8(encode_utf8(c@.name())) == c@.name());
                assert(decode_utf8(encode_utf8(old_v[p as int].name())) == old_v[p as int].name());
                assert(c@.name() == old_v[p as int].name());
            }
        }
    }
    let ghost cv = c@;
    changes.insert(p, c);
    let ghost new_v = changes_view(changes@);
    assert(new_v =~= old_v.insert(p as int, cv));
    assert forall|i: int, j: int| 0 <= i < j < new_v.len() implies name_lt(
        new_v[i].name(),
        new_v[j].name(),
    ) by {
        if i < p && j < p {
        } else if i < p && j == p {
        } else if i < p && j > p {
            assert(new_v[j] == old_v[j - 1]);
            if j - 1 == p {
            } else {
                assert(name_lt(old_v[p as int].name(), old_v[j - 1].name()));
                lemma_bytes_lt_trans(
                    encode_utf8(cv.name()),
                    encode_utf8(old_v[p as int].name()),
                    encode_utf8(old_v[j - 1].name()),
                );
            }
            lemma_bytes_lt_trans(
                encode_utf8(new_v[i].name()),
                encode_utf8(cv.name()),
                encode_utf8(new_v[j].name()),
            );
        } else if i == p {
            assert(new_v[j] == old_v[j - 1]);
            if j - 1 > p {
                assert(name_lt(old_v[p as int].name(), old_v[j - 1].name()));
                lemma_bytes_lt_trans(
                    encode_utf8(cv.name()),
                    encode_utf8(old_v[p as int].name()),
                    encode_utf8(old_v[j - 1].name()),
                );
            }
        } else {
            assert(new_v[i] == old_v[i - 1]);
            assert(new_v[j] == old_v[j - 1]);
        }
    }
    assert forall|x: ChangeView| new_v.contains(x) <==> (old_v.contains(x) || x == cv) by {
        if new_v.contains(x) {
            let k = choose|k: int| 0 <= k < new_v.len() && new_v[k] == x;
            if k < p {
                assert(old_v[k] == x);
            } else if k > p {
                assert(old_v[k - 1] == x);
            }
        }
        if old_v.contains(x) {
            let k = choose|k: int| 0 <= k < old_v.len() && old_v[k] == x;
            if k < p {
                assert(new_v[k] == x);
            } else {
                assert(new_v[k + 1] == x);
            }
        }
        if x == cv {
            assert(new_v[p as int] == x);
        }
    }
}


/// Whether some entry among the first `j` of `es` represents the name `n`.
pub open spec fn rep_before(es: Seq<EntryView>, j: int, n: Seq<char>) -> bool {
    exists|k: int| 0 <= k < j && is_rep(es, k) && #[trigger] es[k].header.name == n
}

/// Whether some change is about the name `n`.
pub open spec fn has_name(cs: Seq<ChangeView>, n: Seq<char>) -> bool {
    exists|k: int| 0 <= k < cs.len() && #[trigger] cs[k].name() == n
}

proof fn lemma_has_name_grows(old_v: Seq<ChangeView>, new_v: Seq<ChangeView>, n: Seq<char>)
    requires
        has_name(old_v, n),
        forall|x: ChangeView| old_v.contains(x) ==> #[trigger] new_v.contains(x),
    ensures
        has_name(new_v, n),
{
    let k = choose|k: int| 0 <= k < old_v.len() && #[trigger] old_v[k].name() == n;
    assert(old_v.contains(old_v[k]));
    assert(new_v.contains(old_v[k]));
    let m = choose|m: int| 0 <= m < new_v.len() && new_v[m] == old_v[k];
    assert(new_v[m].name() == n);
}

proof fn lemma_has_name_in(cs: Seq<ChangeView>, n: Seq<char>)
    requires
        has_name(cs, n),
    ensures
        exists|x: ChangeView| cs.contains(x) && x.name() == n,
{
    let k = choose|k: int| 0 <= k < cs.len() && #[trigger] cs[k].name() == n;
    assert(cs.contains(cs[k]));
}

/// Diff two archives by comparing entries by name.
///
/// An archive holds under a name its last entry of that name, metadata aside. The
/// changes are those of every name that either archive holds, in the byte order of
/// the names; the counts count names.
pub fn diff_archives(entries1: &[TarEntry], entries2: &[TarEntry]) -> (r: DiffResult)
    ensures
        names_sorted(changes_view(r.changes@)),
        forall|x: ChangeView|
            changes_view(r.changes@).contains(x) ==> change_for(
                entries_view(entries1@),
                entries_view(entries2@),
                x.name(),
            ) == Some(x),
        forall|n: Seq<char>|
            change_for(entries_view(entries1@), entries_view(entries2@), n) is Some ==> has_name(
                changes_view(r.changes@),
                n,
            ),
        r.added_count == class_count(
            entries_view(entries1@),
            entries_view(entries2@),
            entries2@.len() as int,
            0,
        ),
        r.type_changed_count == class_count(
            entries_view(entries1@),
            entries_view(entries2@),
            entries2@.len() as int,
            1,
        ),
        r.modified_count == class_count(
            entries_view(entries1@),
            entries_view(entries2@),
            entries2@.len() as int,
            2,
        ),
        r.unchanged_count == class_count(
            entries_view(entries1@),
            entries_view(entries2@),
            entries2@.len() as int,
            3,
        ),
        r.removed_count == removed_count(
            entries_view(entries1@),
            entries_view(entries2@),
            entries1@.len() as int,
        ),
        r.added_count == names_of(entries_view(entries2@)).difference(
            names_of(entries_view(entries1@)),
        ).len(),
        r.removed_count == names_of(entries_view(entries1@)).difference(
            names_of(entries_view(entries2@)),
        ).len(),
        r.modified_count + r.type_changed_count + r.unchanged_count == names_of(
            entries_view(entries1@),
        ).intersect(names_of(entries_view(entries2@))).len(),
        kind_count_upto(changes_view(r.changes@), r.changes@.len() as int, 0) == r.added_count,
        kind_count_upto(changes_view(r.changes@), r.changes@.len() as int, 1)
            == r.type_changed_count,
        kind_count_upto(changes_view(r.changes@), r.changes@.len() as int, 2) == r.modified_count,
        kind_count_upto(changes_view(r.changes@), r.changes@.len() as int, 4) == r.removed_count,
        r.changes@.len() == r.added_count + r.removed_count + r.modified_count
            + r.type_changed_count,
{
    let ghost e1 = entries_view(entries1@);
    let ghost e2 = entries_view(entries2@);
    let mut changes: Vec<Change> = Vec::new();
    let mut added: usize = 0;
    let mut removed: usize = 0;
    let mut modified: usize = 0;
    let mut type_changed: usize = 0;
    let mut unchanged: usize = 0;
    for j in 0..entries2.len()
        invariant
            e1 == entries_view(entries1@),
            e2 == entries_view(entries2@),
            e2.len() == entries2@.len(),
            names_sorted(changes_view(changes@)),
            forall|x: ChangeView|
                #[trigger] changes_view(changes@).contains(x) ==> change_for(e1, e2, x.name())
                    == Some(x) && rep_before(e2, j as int, x.name()),
            forall|k: int|
                0 <= k < j && is_rep(e2, k) && change_for(e1, e2, #[trigger] e2[k].header.name)
                    is Some ==> has_name(changes_view(changes@), e2[k].header.name),
            added == class_count(e1, e2, j as int, 0),
            type_changed == class_count(e1, e2, j as int, 1),
            modified == class_count(e1, e2, j as int, 2),
            unchanged == class_count(e1, e2, j as int, 3),
            added + type_changed + modified + unchanged <= j,
    {
        let ghost old_v = changes_view(changes@);
        if is_rep_exec(entries2, j) {
            let entry2 = &entries2[j];
            assert(e2[j as int] == entry2@);
            let ghost n = entry2.header.name@;
            proof {
                lemma_rep_lookup(e2, j as int);
            }
            let found: Option<Change> = match lookup_exec(entries1, &entry2.header.name) {
                None => {
                    added = added + 1;
                    Some(
                        Change::Added {
                            name: entry2.header.name.clone(),
                            entry_type: entry2.header.entry_type,
                            size: entry2.header.size,
                        },
                    )
                },
                Some(i) => {
                    assert(e1[i as int] == entries1@[i as int]@);
                    let c = compare_exec(&entry2.header.name, &entries1[i], entry2);
                    match &c {
                        Some(Change::TypeChanged { .. }) => {
                            type_changed = type_changed + 1;
                        },
                        Some(_) => {
                            modified = modified + 1;
                        },
                        None => {
                            unchanged = unchanged + 1;
                        },
                    }
                    c
                },
            };
            match found {
                Some(c) => {
                    assert(change_for(e1, e2, n) == Some(c@));
                    proof {
                        if has_name(old_v, n) {
                            lemma_has_name_in(old_v, n);
                            let x = choose|x: ChangeView| old_v.contains(x) && x.name() == n;
                            assert(rep_before(e2, j as int, n));
                            let k = choose|k: int|
                                0 <= k < j && is_rep(e2, k) && #[trigger] e2[k].header.name == n;
                            lemma_rep_unique(e2, k, j as int);
                        }
                        assert(!change_names(old_v).contains(n)) by {
                            if change_names(old_v).contains(n) {
                                let k = choose|k: int|
                                    0 <= k < change_names(old_v).len() && change_names(old_v)[k]
                                        == n;
                                assert(old_v[k].name() == n);
                            }
                        }
                    }
                    insert_sorted(&mut changes, c);
                },
                None => {},
            }
            proof {
                let new_v = changes_view(changes@);
                assert forall|x: ChangeView| #[trigger]
                    new_v.contains(x) implies change_for(e1, e2, x.name()) == Some(x) && rep_before(
                    e2,
                    j + 1,
                    x.name(),
                ) by {
                    if old_v.contains(x) {
                        let k = choose|k: int|
                            0 <= k < j && is_rep(e2, k) && #[trigger] e2[k].header.name == x.name();
                        assert(0 <= k < j + 1 && is_rep(e2, k) && e2[k].header.name == x.name());
                    } else {
                        assert(e2[j as int].header.name == x.name());
                    }
                }
                assert forall|k: int|
                    0 <= k < j + 1 && is_rep(e2, k) && change_for(
                        e1,
                        e2,
                        #[trigger] e2[k].header.name,
                    ) is Some implies has_name(new_v, e2[k].header.name) by {
                    if k < j {
                        lemma_has_name_grows(old_v, new_v, e2[k].header.name);
                    } else {
                        let x = change_for(e1, e2, n)->Some_0;
                        assert(new_v.contains(x));
                        let m = choose|m: int| 0 <= m < new_v.len() && new_v[m] == x;
                        assert(new_v[m].name() == n);
                    }
                }
            }
        } else {
            proof {
                let new_v = changes_view(changes@);
                assert forall|x: ChangeView| #[trigger]
                    new_v.contains(x) implies change_for(e1, e2, x.name()) == Some(x) && rep_before(
                    e2,
                    j + 1,
                    x.name(),
                ) by {
                    let k = choose|k: int|
                        0 <= k < j && is_rep(e2, k) && #[trigger] e2[k].header.name == x.name();
                    assert(0 <= k < j + 1 && is_rep(e2, k) && e2[k].header.name == x.name());
                }
            }
        }
    }
    for i in 0..entries1.len()
        invariant
            e1 == entries_view(entries1@),
            e2 == entries_view(entries2@),
            e1.len() == entries1@.len(),
            names_sorted(changes_view(changes@)),
            forall|x: ChangeView|
                #[trigger] changes_view(changes@).contains(x) ==> change_for(e1, e2, x.name())
                    == Some(x) && (rep_before(e2, e2.len() as int, x.name()) || (rep_before(
                    e1,
                    i as int,
                    x.name(),
                ) && lookup(e2, x.name()) is None)),
            forall|k: int|
                0 <= k < e2.len() && is_rep(e2, k) && change_for(
                    e1,
                    e2,
                    #[trigger] e2[k].header.name,
                ) is Some ==> has_name(changes_view(changes@), e2[k].header.name),
            forall|k: int|
                0 <= k < i && is_rep(e1, k) && lookup(e2, #[trigger] e1[k].header.name) is None
                    ==> has_name(changes_view(changes@), e1[k].header.name),
            removed == removed_count(e1, e2, i as int),
            removed <= i,
    {
        let ghost old_v = changes_view(changes@);
        let mut pushed = false;
        if is_rep_exec(entries1, i) {
            let entry1 = &entries1[i];
            assert(e1[i as int] == entry1@);
            let ghost n = entry1.header.name@;
            if lookup_exec(entries2, &entry1.header.name).is_none() {
                proof {
                    lemma_rep_lookup(e1, i as int);
                }
                let c = Change::Removed {
                    name: entry1.header.name.clone(),
                    entry_type: entry1.header.entry_type,
                    size: entry1.header.size,
                };
                assert(change_for(e1, e2, n) == Some(c@));
                proof {
                    if has_name(old_v, n) {
                        lemma_has_name_in(old_v, n);
                        let x = choose|x: ChangeView| old_v.contains(x) && x.name() == n;
                        if rep_before(e2, e2.len() as int, n) {
                            let k = choose|k: int|
                                0 <= k < e2.len() && is_rep(e2, k) && #[trigger] e2[k].header.name
                                    == n;
                            lemma_rep_lookup(e2, k);
                        } else {
                            let k = choose|k: int|
                                0 <= k < i && is_rep(e1, k) && #[trigger] e1[k].header.name == n;
                            lemma_rep_unique(e1, k, i as int);
                        }
                    }
                    assert(!change_names(old_v).contains(n)) by {
                        if change_names(old_v).contains(n) {
                            let k = choose|k: int|
                                0 <= k < change_names(old_v).len() && change_names(old_v)[k] == n;
                            assert(old_v[k].name() == n);
                        }
                    }
                }
                insert_sorted(&mut changes, c);
                removed = removed + 1;
                pushed = true;
            }
        }
        proof {
            let new_v = changes_view(changes@);
            assert forall|x: ChangeView| #[trigger]
                new_v.contains(x) implies change_for(e1, e2, x.name()) == Some(x) && (rep_before(
                e2,
                e2.len() as int,
                x.name(),
            ) || (rep_before(e1, i + 1, x.name()) && lookup(e2, x.name()) is None)) by {
                if old_v.contains(x) {
                    if !rep_before(e2, e2.len() as int, x.name()) {
                        let k = choose|k: int|
                            0 <= k < i && is_rep(e1, k) && #[trigger] e1[k].header.name == x.name();
                        assert(0 <= k < i + 1 && is_rep(e1, k) && e1[k].header.name == x.name());
                    }
                } else {
                    assert(e1[i as int].header.name == x.name());
                }
            }
            assert forall|k: int|
                0 <= k < e2.len() && is_rep(e2, k) && change_for(
                    e1,
                    e2,
                    #[trigger] e2[k].header.name,
                ) is Some implies has_name(new_v, e2[k].header.name) by {
                lemma_has_name_grows(old_v, new_v, e2[k].header.name);
            }
            assert forall|k: int|
                0 <= k < i + 1 && is_rep(e1, k) && lookup(e2, #[trigger] e1[k].header.name) is None
                    implies has_name(new_v, e1[k].header.name) by {
                if k < i {
                    lemma_has_name_grows(old_v, new_v, e1[k].header.name);
                } else {
                    let x = change_for(e1, e2, e1[k].header.name)->Some_0;
                    assert(new_v.contains(x));
                    let m = choose|m: int| 0 <= m < new_v.len() && new_v[m] == x;
                    assert(new_v[m].name() == e1[k].header.name);
                }
            }
        }
    }
    proof {
        let cv = changes_view(changes@);
        assert forall|n: Seq<char>| change_for(e1, e2, n) is Some implies has_name(cv, n) by {
            if lookup(e2, n) is Some {
                lemma_lookup_rep(e2, n);
                let k = choose|k: int| is_rep(e2, k) && #[trigger] e2[k].header.name == n;
            } else {
                lemma_lookup_rep(e1, n);
                let k = choose|k: int| is_rep(e1, k) && #[trigger] e1[k].header.name == n;
            }
        }
    }
    proof {
        lemma_diff_counts_as_sets(e1, e2);
        lemma_change_counts(e1, e2, changes_view(changes@));
    }
    DiffResult {
        changes,
        added_count: added,
        removed_count: removed,
        modified_count: modified,
        type_changed_count: type_changed,
        unchanged_count: unchanged,
    }
}


// ---------------------------------------------------------------------------
// Laws
// ---------------------------------------------------------------------------

/// The number of names among the entries of `es` before `i`: the entries that
/// represent their name.
pub open spec fn rep_count(es: Seq<EntryView>, i: int) -> nat
    decreases i,
{
    if i <= 0 {
        0
    } else {
        rep_count(es, i - 1) + if is_rep(es, i - 1) {
            1nat
        } else {
            0
        }
    }
}

/// The same change seen from the other side: what was added is removed, and old and
/// new trade places.
pub open spec fn reverse_change(c: ChangeView) -> ChangeView {
    match c {
        ChangeView::Added { name, entry_type, size } => ChangeView::Removed {
            name,
            entry_type,
            size,
        },
        ChangeView::Removed { name, entry_type, size } => ChangeView::Added {
            name,
            entry_type,
            size,
        },
        ChangeView::Modified {
            name,
            entry_type,
            old_size,
            new_size,
            old_mtime,
            new_mtime,
            old_mode,
            new_mode,
            content_changed,
        } => ChangeView::Modified {
            name,
            entry_type,
            old_size: new_size,
            new_size: old_size,
            old_mtime: new_mtime,
            new_mtime: old_mtime,
            old_mode: new_mode,
            new_mode: old_mode,
            content_changed,
        },
        ChangeView::TypeChanged { name, old_type, new_type } => ChangeView::TypeChanged {
            name,
            old_type: new_type,
            new_type: old_type,
        },
    }
}

/// Every name of the second archive is counted once: as added, type changed,
/// modified or unchanged.
pub proof fn lemma_diff_counts_partition(e1: Seq<EntryView>, e2: Seq<EntryView>, j: int)
    requires
        0 <= j <= e2.len(),
    ensures
        class_count(e1, e2, j, 0) + class_count(e1, e2, j, 1) + class_count(e1, e2, j, 2)
            + class_count(e1, e2, j, 3) == rep_count(e2, j),
    decreases j,
{
    if j > 0 {
        lemma_diff_counts_partition(e1, e2, j - 1);
    }
}

/// An archive compared with itself has no changes: no name is added, removed,
/// modified or changes type, and every name it holds is unchanged.
pub proof fn lemma_diff_identical(es: Seq<EntryView>)
    ensures
        forall|n: Seq<char>| #[trigger] change_for(es, es, n) is None,
        class_count(es, es, es.len() as int, 0) == 0,
        class_count(es, es, es.len() as int, 1) == 0,
        class_count(es, es, es.len() as int, 2) == 0,
        class_count(es, es, es.len() as int, 3) == rep_count(es, es.len() as int),
        removed_count(es, es, es.len() as int) == 0,
{
    lemma_self_counts(es, es.len() as int);
}

proof fn lemma_self_counts(es: Seq<EntryView>, j: int)
    requires
        0 <= j <= es.len(),
    ensures
        class_count(es, es, j, 0) == 0,
        class_count(es, es, j, 1) == 0,
        class_count(es, es, j, 2) == 0,
        class_count(es, es, j, 3) == rep_count(es, j),
        removed_count(es, es, j) == 0,
    decreases j,
{
    if j > 0 {
        lemma_self_counts(es, j - 1);
        if is_rep(es, j - 1) {
            lemma_rep_lookup(es, j - 1);
        }
    }
}

/// Swapping the archives reverses every change: what one diff adds the other
/// removes, and the old and new sides trade places.
pub proof fn lemma_diff_swap(a: Seq<EntryView>, b: Seq<EntryView>, n: Seq<char>)
    ensures
        change_for(b, a, n) == match change_for(a, b, n) {
            Some(c) => Some(reverse_change(c)),
            None => None,
        },
{
}

/// Swapping the archives swaps the counts of added and removed names.
pub proof fn lemma_diff_swap_counts(a: Seq<EntryView>, b: Seq<EntryView>)
    ensures
        class_count(a, b, b.len() as int, 0) == removed_count(b, a, b.len() as int),
        class_count(b, a, a.len() as int, 0) == removed_count(a, b, a.len() as int),
{
    lemma_added_removed(a, b, b.len() as int);
    lemma_added_removed(b, a, a.len() as int);
}

proof fn lemma_added_removed(a: Seq<EntryView>, b: Seq<EntryView>, j: int)
    requires
        0 <= j <= b.len(),
    ensures
        class_count(a, b, j, 0) == removed_count(b, a, j),
    decreases j,
{
    if j > 0 {
        lemma_added_removed(a, b, j - 1);
    }
}

/// The names an archive holds: those of its entries that are not metadata.
pub open spec fn names_of(es: Seq<EntryView>) -> Set<Seq<char>> {
    Set::new(|n: Seq<char>| lookup(es, n) is Some)
}

/// The names with property `p` that the entries before `j` represent.
pub open spec fn held_before(es: Seq<EntryView>, j: int, p: spec_fn(Seq<char>) -> bool) -> Set<
    Seq<char>,
> {
    Set::new(|n: Seq<char>| rep_before(es, j, n) && p(n))
}

/// The number of entries before `j` that represent a name with property `p`.
pub open spec fn rep_count_where(es: Seq<EntryView>, j: int, p: spec_fn(Seq<char>) -> bool) -> nat
    decreases j,
{
    if j <= 0 {
        0
    } else {
        rep_count_where(es, j - 1, p) + if is_rep(es, j - 1) && p(es[j - 1].header.name) {
            1nat
        } else {
            0
        }
    }
}

proof fn lemma_held_before(es: Seq<EntryView>, j: int, p: spec_fn(Seq<char>) -> bool)
    requires
        0 <= j <= es.len(),
    ensures
        held_before(es, j, p).finite(),
        held_before(es, j, p).len() == rep_count_where(es, j, p),
    decreases j,
{
    if j == 0 {
        assert(held_before(es, j, p) =~= Set::<Seq<char>>::empty());
    } else {
        lemma_held_before(es, j - 1, p);
        let prev = held_before(es, j - 1, p);
        let cur = held_before(es, j, p);
        let n = es[j - 1].header.name;
        if is_rep(es, j - 1) && p(n) {
            assert(cur =~= prev.insert(n)) by {
                assert forall|m: Seq<char>| cur.contains(m) implies prev.contains(m) || m == n by {
                    let k = choose|k: int| 0 <= k < j && is_rep(es, k) && #[trigger] es[k].header.name == m;
                    if k < j - 1 {
                        assert(rep_before(es, j - 1, m));
                    }
                }
                assert forall|m: Seq<char>| prev.insert(n).contains(m) implies cur.contains(m) by {
                    if m == n {
                        assert(rep_before(es, j, m));
                    } else {
                        let k = choose|k: int|
                            0 <= k < j - 1 && is_rep(es, k) && #[trigger] es[k].header.name == m;
                        assert(rep_before(es, j, m));
                    }
                }
            }
            if prev.contains(n) {
                let k = choose|k: int| 0 <= k < j - 1 && is_rep(es, k) && #[trigger] es[k].header.name == n;
                lemma_rep_unique(es, k, j - 1);
            }
        } else {
            assert(cur =~= prev) by {
                assert forall|m: Seq<char>| cur.contains(m) implies prev.contains(m) by {
                    let k = choose|k: int| 0 <= k < j && is_rep(es, k) && #[trigger] es[k].header.name == m;
                    assert(k < j - 1);
                    assert(rep_before(es, j - 1, m));
                }
                assert forall|m: Seq<char>| prev.contains(m) implies cur.contains(m) by {
                    let k = choose|k: int|
                        0 <= k < j - 1 && is_rep(es, k) && #[trigger] es[k].header.name == m;
                    assert(rep_before(es, j, m));
                }
            }
        }
    }
}

/// The names the whole archive represents are the names it holds.
proof fn lemma_held_all(es: Seq<EntryView>, p: spec_fn(Seq<char>) -> bool)
    ensures
        held_before(es, es.len() as int, p) == names_of(es).filter(p),
{
    assert forall|n: Seq<char>| #[trigger] held_before(es, es.len() as int, p).contains(n) <==> names_of(
        es,
    ).filter(p).contains(n) by {
        if rep_before(es, es.len() as int, n) {
            let k = choose|k: int|
                0 <= k < es.len() && is_rep(es, k) && #[trigger] es[k].header.name == n;
            lemma_rep_lookup(es, k);
        }
        if lookup(es, n) is Some {
            lemma_lookup_rep(es, n);
            let k = choose|k: int| is_rep(es, k) && #[trigger] es[k].header.name == n;
            assert(rep_before(es, es.len() as int, n));
        }
    }
    assert(held_before(es, es.len() as int, p) =~= names_of(es).filter(p));
}

proof fn lemma_class_counts(e1: Seq<EntryView>, e2: Seq<EntryView>, j: int)
    requires
        0 <= j <= e2.len(),
    ensures
        class_count(e1, e2, j, 0) == rep_count_where(e2, j, |n: Seq<char>| lookup(e1, n) is None),
        class_count(e1, e2, j, 1) + class_count(e1, e2, j, 2) + class_count(e1, e2, j, 3)
            == rep_count_where(e2, j, |n: Seq<char>| lookup(e1, n) is Some),
    decreases j,
{
    if j > 0 {
        lemma_class_counts(e1, e2, j - 1);
    }
}

proof fn lemma_removed_counts(e1: Seq<EntryView>, e2: Seq<EntryView>, i: int)
    requires
        0 <= i <= e1.len(),
    ensures
        removed_count(e1, e2, i) == rep_count_where(e1, i, |n: Seq<char>| lookup(e2, n) is None),
    decreases i,
{
    if i > 0 {
        lemma_removed_counts(e1, e2, i - 1);
    }
}

/// Two entries of the same name and type, each the one its archive holds under that
/// name, are unchanged exactly when their content, size, modification time and mode
/// are all equal; otherwise the diff reports them as modified, with the old and new
/// size, time and mode and whether the content differs.
pub proof fn lemma_same_type_change(e1: Seq<EntryView>, e2: Seq<EntryView>, i: int, j: int)
    requires
        is_rep(e1, i),
        is_rep(e2, j),
        e1[i].header.name == e2[j].header.name,
        e1[i].header.entry_type == e2[j].header.entry_type,
    ensures
        ({
            let a = e1[i];
            let b = e2[j];
            let n = a.header.name;
            let same = a.content == b.content && a.header.size == b.header.size
                && a.header.mtime == b.header.mtime && a.header.mode == b.header.mode;
            &&& same ==> change_for(e1, e2, n) is None
            &&& !same ==> change_for(e1, e2, n) == Some(
                ChangeView::Modified {
                    name: n,
                    entry_type: b.header.entry_type,
                    old_size: a.header.size,
                    new_size: b.header.size,
                    old_mtime: a.header.mtime,
                    new_mtime: b.header.mtime,
                    old_mode: a.header.mode,
                    new_mode: b.header.mode,
                    content_changed: a.content != b.content,
                },
            )
        }),
{
    lemma_rep_lookup(e1, i);
    lemma_rep_lookup(e2, j);
}

/// The counts of a diff are counts of names: added are the names only the second
/// archive holds, removed those only the first holds, and modified, type changed
/// and unchanged together those both hold.
pub proof fn lemma_diff_counts_as_sets(e1: Seq<EntryView>, e2: Seq<EntryView>)
    ensures
        names_of(e1).finite(),
        names_of(e2).finite(),
        class_count(e1, e2, e2.len() as int, 0) == names_of(e2).difference(names_of(e1)).len(),
        removed_count(e1, e2, e1.len() as int) == names_of(e1).difference(names_of(e2)).len(),
        class_count(e1, e2, e2.len() as int, 1) + class_count(e1, e2, e2.len() as int, 2)
            + class_count(e1, e2, e2.len() as int, 3) == names_of(e1).intersect(names_of(e2)).len(),
{
    let absent1 = |n: Seq<char>| lookup(e1, n) is None;
    let present1 = |n: Seq<char>| lookup(e1, n) is Some;
    let absent2 = |n: Seq<char>| lookup(e2, n) is None;
    let all = |n: Seq<char>| true;
    lemma_class_counts(e1, e2, e2.len() as int);
    lemma_removed_counts(e1, e2, e1.len() as int);
    lemma_held_before(e2, e2.len() as int, absent1);
    lemma_held_before(e2, e2.len() as int, present1);
    lemma_held_before(e1, e1.len() as int, absent2);
    lemma_held_before(e1, e1.len() as int, all);
    lemma_held_before(e2, e2.len() as int, all);
    lemma_held_all(e2, absent1);
    lemma_held_all(e2, present1);
    lemma_held_all(e1, absent2);
    lemma_held_all(e1, all);
    lemma_held_all(e2, all);
    assert(names_of(e1).filter(all) =~= names_of(e1));
    assert(names_of(e2).filter(all) =~= names_of(e2));
    assert(names_of(e2).filter(absent1) =~= names_of(e2).difference(names_of(e1)));
    assert(names_of(e1).filter(absent2) =~= names_of(e1).difference(names_of(e2)));
    assert(names_of(e2).filter(present1) =~= names_of(e1).intersect(names_of(e2)));
}

/// The kind of a change, numbered as the counts of a diff are: 0 added, 1 type
/// changed, 2 modified, 4 removed.
pub open spec fn change_kind(c: ChangeView) -> int {
    match c {
        ChangeView::Added { .. } => 0,
        ChangeView::TypeChanged { .. } => 1,
        ChangeView::Modified { .. } => 2,
        ChangeView::Removed { .. } => 4,
    }
}

/// The number of changes of kind `k` among the first `i` of `cs`.
pub open spec fn kind_count_upto(cs: Seq<ChangeView>, i: int, k: int) -> nat
    decreases i,
{
    if i <= 0 {
        0
    } else {
        kind_count_upto(cs, i - 1, k) + if change_kind(cs[i - 1]) == k {
            1nat
        } else {
            0
        }
    }
}

/// How a name fares in a diff, as `class_of` numbers it, 4 where only the first
/// archive holds it.
pub open spec fn name_class(e1: Seq<EntryView>, e2: Seq<EntryView>, n: Seq<char>) -> int {
    match change_for(e1, e2, n) {
        Some(c) => change_kind(c),
        None => 3,
    }
}

proof fn lemma_class_counts_by_name(e1: Seq<EntryView>, e2: Seq<EntryView>, j: int, c: int)
    requires
        0 <= j <= e2.len(),
        0 <= c <= 3,
    ensures
        class_count(e1, e2, j, c) == rep_count_where(
            e2,
            j,
            |n: Seq<char>| name_class(e1, e2, n) == c,
        ),
    decreases j,
{
    if j > 0 {
        lemma_class_counts_by_name(e1, e2, j - 1, c);
        if is_rep(e2, j - 1) {
            lemma_rep_lookup(e2, j - 1);
        }
    }
}

/// The names of the changes of kind `k` among the first `i` of `cs`.
pub open spec fn kind_names(cs: Seq<ChangeView>, i: int, k: int) -> Set<Seq<char>> {
    Set::new(|n: Seq<char>| exists|m: int| 0 <= m < i && #[trigger] cs[m].name() == n && change_kind(cs[m]) == k)
}

proof fn lemma_kind_names(cs: Seq<ChangeView>, i: int, k: int)
    requires
        0 <= i <= cs.len(),
        forall|a: int, b: int| 0 <= a < b < cs.len() ==> cs[a].name() != cs[b].name(),
    ensures
        kind_names(cs, i, k).finite(),
        kind_names(cs, i, k).len() == kind_count_upto(cs, i, k),
    decreases i,
{
    if i == 0 {
        assert(kind_names(cs, i, k) =~= Set::<Seq<char>>::empty());
    } else {
        lemma_kind_names(cs, i - 1, k);
        let prev = kind_names(cs, i - 1, k);
        let cur = kind_names(cs, i, k);
        let n = cs[i - 1].name();
        if change_kind(cs[i - 1]) == k {
            assert(cur =~= prev.insert(n)) by {
                assert forall|x: Seq<char>| cur.contains(x) implies prev.insert(n).contains(x) by {
                    let m = choose|m: int|
                        0 <= m < i && #[trigger] cs[m].name() == x && change_kind(cs[m]) == k;
                    if m < i - 1 {
                        assert(prev.contains(x));
                    }
                }
                assert forall|x: Seq<char>| prev.insert(n).contains(x) implies cur.contains(x) by {
                    if x == n {
                        assert(cs[i - 1].name() == x);
                    } else {
                        let m = choose|m: int|
                            0 <= m < i - 1 && #[trigger] cs[m].name() == x && change_kind(cs[m]) == k;
                        assert(cs[m].name() == x);
                    }
                }
            }
            if prev.contains(n) {
                let m = choose|m: int|
                    0 <= m < i - 1 && #[trigger] cs[m].name() == n && change_kind(cs[m]) == k;
                assert(cs[m].name() != cs[i - 1].name());
            }
        } else {
            assert(cur =~= prev) by {
                assert forall|x: Seq<char>| cur.contains(x) implies prev.contains(x) by {
                    let m = choose|m: int|
                        0 <= m < i && #[trigger] cs[m].name() == x && change_kind(cs[m]) == k;
                    assert(m < i - 1);
                }
                assert forall|x: Seq<char>| prev.contains(x) implies cur.contains(x) by {
                    let m = choose|m: int|
                        0 <= m < i - 1 && #[trigger] cs[m].name() == x && change_kind(cs[m]) == k;
                    assert(cs[m].name() == x);
                }
            }
        }
    }
}

proof fn lemma_kind_total(cs: Seq<ChangeView>, i: int)
    requires
        0 <= i <= cs.len(),
    ensures
        kind_count_upto(cs, i, 0) + kind_count_upto(cs, i, 1) + kind_count_upto(cs, i, 2)
            + kind_count_upto(cs, i, 4) == i,
    decreases i,
{
    if i > 0 {
        lemma_kind_total(cs, i - 1);
    }
}

/// The changes of a diff counted by kind give its counts: as many added, type
/// changed, modified and removed changes as the counts say, and no other change.
pub proof fn lemma_change_counts(e1: Seq<EntryView>, e2: Seq<EntryView>, cs: Seq<ChangeView>)
    requires
        names_sorted(cs),
        forall|x: ChangeView| cs.contains(x) ==> change_for(e1, e2, x.name()) == Some(x),
        forall|n: Seq<char>| change_for(e1, e2, n) is Some ==> has_name(cs, n),
    ensures
        kind_count_upto(cs, cs.len() as int, 0) == class_count(e1, e2, e2.len() as int, 0),
        kind_count_upto(cs, cs.len() as int, 1) == class_count(e1, e2, e2.len() as int, 1),
        kind_count_upto(cs, cs.len() as int, 2) == class_count(e1, e2, e2.len() as int, 2),
        kind_count_upto(cs, cs.len() as int, 4) == removed_count(e1, e2, e1.len() as int),
        cs.len() == class_count(e1, e2, e2.len() as int, 0) + class_count(e1, e2, e2.len() as int, 1)
            + class_count(e1, e2, e2.len() as int, 2) + removed_count(e1, e2, e1.len() as int),
{
    let len = cs.len() as int;
    assert forall|a: int, b: int| 0 <= a < b < cs.len() implies cs[a].name() != cs[b].name() by {
        assert(name_lt(cs[a].name(), cs[b].name()));
        lemma_bytes_lt_irrefl(encode_utf8(cs[a].name()));
    }
    lemma_kind_total(cs, len);
    // the names of each kind of change
    assert forall|k: int, n: Seq<char>| #[trigger] kind_names(cs, len, k).contains(n) <==> (
    change_for(e1, e2, n) is Some && name_class(e1, e2, n) == k) by {
        if kind_names(cs, len, k).contains(n) {
            let m = choose|m: int| 0 <= m < len && #[trigger] cs[m].name() == n && change_kind(cs[m]) == k;
            assert(cs.contains(cs[m]));
        }
        if change_for(e1, e2, n) is Some {
            assert(has_name(cs, n));
            let m = choose|m: int| 0 <= m < cs.len() && #[trigger] cs[m].name() == n;
            assert(cs.contains(cs[m]));
            assert(change_for(e1, e2, n) == Some(cs[m]));
        }
    }
    let all = |n: Seq<char>| true;
    lemma_held_before(e1, e1.len() as int, all);
    lemma_held_all(e1, all);
    lemma_held_before(e2, e2.len() as int, all);
    lemma_held_all(e2, all);
    assert(names_of(e1).filter(all) =~= names_of(e1));
    assert(names_of(e2).filter(all) =~= names_of(e2));
    // kinds 0, 1 and 2: names of the second archive of that class
    assert forall|c: int| 0 <= c <= 2 implies #[trigger] kind_count_upto(cs, len, c) == class_count(
        e1,
        e2,
        e2.len() as int,
        c,
    ) by {
        let p = |n: Seq<char>| name_class(e1, e2, n) == c;
        lemma_class_counts_by_name(e1, e2, e2.len() as int, c);
        lemma_held_before(e2, e2.len() as int, p);
        lemma_held_all(e2, p);
        lemma_kind_names(cs, len, c);
        assert forall|n: Seq<char>| names_of(e2).filter(p).contains(n) <==> kind_names(cs, len, c).contains(n) by {
            if lookup(e2, n) is None && change_for(e1, e2, n) is Some {
                assert(name_class(e1, e2, n) == 4);
            }
        }
        assert(names_of(e2).filter(p) =~= kind_names(cs, len, c));
    }
    // removed: names of the first archive only
    let p4 = |n: Seq<char>| lookup(e2, n) is None;
    lemma_removed_counts(e1, e2, e1.len() as int);
    lemma_held_before(e1, e1.len() as int, p4);
    lemma_held_all(e1, p4);
    lemma_kind_names(cs, len, 4);
    assert forall|n: Seq<char>| names_of(e1).filter(p4).contains(n) <==> kind_names(cs, len, 4).contains(n) by {
        if kind_names(cs, len, 4).contains(n) {
            assert(change_for(e1, e2, n) is Some && name_class(e1, e2, n) == 4);
        }
    }
    assert(names_of(e1).filter(p4) =~= kind_names(cs, len, 4));
    assert(kind_count_upto(cs, len, 0) == class_count(e1, e2, e2.len() as int, 0));
    assert(kind_count_upto(cs, len, 1) == class_count(e1, e2, e2.len() as int, 1));
    assert(kind_count_upto(cs, len, 2) == class_count(e1, e2, e2.len() as int, 2));
}

} // verus!
