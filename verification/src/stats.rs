//! Archive statistics: entry counts, sizes, formats and the largest files.

use vstd::prelude::*;
use crate::header::{EntryType, TarFormat};
use crate::reader::{entries_view, EntryView, TarEntry};
use crate::text::{
    dec, fixed_point, lemma_bit_len_bound, lemma_nearest_f64_positive, lemma_quotient_exact,
    lemma_round_div_scale, nearest_f64, nearest_f64_exec, pad_left, quotient_f64, round_div,
    quotient_f64_exec, str_eq, two_pow, TextBuf,
};

verus! {

/// The text of `format_size`: bytes below 1024, else KB, MB or GB with two decimals
/// of the size as a double.
pub open spec fn spec_format_size(size: u64) -> Seq<char> {
    if size < 1024 {
        dec(size as nat) + seq![' ', 'B']
    } else if size < 1024 * 1024 {
        fixed_point(nearest_f64(size as nat), 1024, 2) + seq![' ', 'K', 'B']
    } else if size < 1024 * 1024 * 1024 {
        fixed_point(nearest_f64(size as nat), 1024 * 1024, 2) + seq![' ', 'M', 'B']
    } else {
        fixed_point(nearest_f64(size as nat), 1024 * 1024 * 1024, 2) + seq![' ', 'G', 'B']
    }
}

/// Format a byte size as a human-readable string.
pub fn format_size(size: u64) -> (s: String)
    ensures
        s@ == spec_format_size(size),
{
    let mut b = TextBuf::new();
    if size < 1024 {
        b.push_dec(size);
        b.push_char(' ');
        b.push_char('B');
    } else if size < 1024 * 1024 {
        b.push_fixed(nearest_f64_exec(size), 1024, 2);
        b.push_char(' ');
        b.push_char('K');
        b.push_char('B');
    } else if size < 1024 * 1024 * 1024 {
        b.push_fixed(nearest_f64_exec(size), 1024 * 1024, 2);
        b.push_char(' ');
        b.push_char('M');
        b.push_char('B');
    } else {
        b.push_fixed(nearest_f64_exec(size), 1024 * 1024 * 1024, 2);
        b.push_char(' ');
        b.push_char('G');
        b.push_char('B');
    }
    assert(b@ =~= spec_format_size(size));
    b.into_string()
}

/// The average file size as `{:.2}` writes it: the total size over the number of
/// files, both taken as doubles and divided as doubles; 0 where there are no files.
pub open spec fn spec_average_text(total: u64, count: nat) -> Seq<char> {
    if count == 0 {
        fixed_point(0, 1, 2)
    } else {
        let q = quotient_f64(nearest_f64(total as nat), nearest_f64(count));
        fixed_point(q.0, q.1, 2)
    }
}

/// The average file size of `count` files of `total` bytes, with two decimals.
pub fn average_text(total: u64, count: usize) -> (r: String)
    ensures
        r@ == spec_average_text(total, count as nat),
{
    let mut b = TextBuf::new();
    if count == 0 {
        b.push_fixed2(0, 1);
    } else {
        let a = nearest_f64_exec(total);
        let c = nearest_f64_exec(count as u64);
        proof {
            lemma_nearest_f64_positive(count as nat);
        }
        let (n, d) = if a == 0 {
            (0u128, 1u128)
        } else {
            quotient_f64_exec(a, c)
        };
        b.push_fixed2(n, d);
    }
    assert(b@ =~= spec_average_text(total, count as nat));
    b.into_string()
}

/// Sizes below 1024 are written as a plain count of bytes.
pub proof fn lemma_small_sizes_in_bytes(size: u64)
    requires
        size < 1024,
    ensures
        spec_format_size(size) == dec(size as nat) + seq![' ', 'B'],
{
}

// ---------------------------------------------------------------------------
// Counts
// ---------------------------------------------------------------------------

/// The number of metadata entries.
pub open spec fn metadata_count(es: Seq<EntryView>) -> nat
    decreases es.len(),
{
    if es.len() == 0 {
        0
    } else {
        metadata_count(es.drop_last()) + if es.last().header.entry_type.spec_is_metadata() {
            1nat
        } else {
            0
        }
    }
}

/// The kind an entry type is counted as in the summary: 0 file, 1 directory, 2 link,
/// 3 other.
pub open spec fn summary_kind(t: EntryType) -> int {
    if t.spec_is_regular() {
        0
    } else if t.spec_is_directory() {
        1
    } else if t.spec_is_link() {
        2
    } else {
        3
    }
}

/// The number of entries that are not metadata and are of summary kind `k`.
pub open spec fn kind_count(es: Seq<EntryView>, k: int) -> nat
    decreases es.len(),
{
    if es.len() == 0 {
        0
    } else {
        kind_count(es.drop_last(), k) + if !es.last().header.entry_type.spec_is_metadata()
            && summary_kind(es.last().header.entry_type) == k {
            1nat
        } else {
            0
        }
    }
}

/// Whether an entry is a file whose size the statistics add up.
pub open spec fn counts_as_file(e: EntryView) -> bool {
    !e.header.entry_type.spec_is_metadata() && summary_kind(e.header.entry_type) == 0
}

/// The files among the entries, as (name, size), in archive order.
pub open spec fn file_list(es: Seq<EntryView>) -> Seq<(Seq<char>, u64)>
    decreases es.len(),
{
    if es.len() == 0 {
        Seq::empty()
    } else if counts_as_file(es.last()) {
        file_list(es.drop_last()).push((es.last().header.name, es.last().header.size))
    } else {
        file_list(es.drop_last())
    }
}

/// The sum of the sizes of the files.
pub open spec fn size_sum(fs: Seq<(Seq<char>, u64)>) -> nat
    decreases fs.len(),
{
    if fs.len() == 0 {
        0
    } else {
        size_sum(fs.drop_last()) + fs.last().1 as nat
    }
}

/// The first file of greatest size.
pub open spec fn largest(fs: Seq<(Seq<char>, u64)>) -> Option<(Seq<char>, u64)>
    decreases fs.len(),
{
    if fs.len() == 0 {
        None
    } else {
        match largest(fs.drop_last()) {
            Some(p) => if fs.last().1 > p.1 {
                Some(fs.last())
            } else {
                Some(p)
            },
            None => Some(fs.last()),
        }
    }
}

/// The first file of least size.
pub open spec fn smallest(fs: Seq<(Seq<char>, u64)>) -> Option<(Seq<char>, u64)>
    decreases fs.len(),
{
    if fs.len() == 0 {
        None
    } else {
        match smallest(fs.drop_last()) {
            Some(p) => if fs.last().1 < p.1 {
                Some(fs.last())
            } else {
                Some(p)
            },
            None => Some(fs.last()),
        }
    }
}

/// The formats of the entries that are not metadata, each once, in the order they
/// first occur.
pub open spec fn data_formats(es: Seq<EntryView>) -> Seq<TarFormat>
    decreases es.len(),
{
    if es.len() == 0 {
        Seq::empty()
    } else {
        let p = data_formats(es.drop_last());
        if es.last().header.entry_type.spec_is_metadata() || p.contains(es.last().header.format) {
            p
        } else {
            p.push(es.last().header.format)
        }
    }
}

/// The index of the description `d` among the counted ones, if it is there.
pub open spec fn type_index(cs: Seq<(Seq<char>, nat)>, d: Seq<char>) -> Option<int>
    decreases cs.len(),
{
    if cs.len() == 0 {
        None
    } else if cs.last().0 == d {
        Some(cs.len() - 1)
    } else {
        type_index(cs.drop_last(), d)
    }
}

/// The number of entries of each type description, all entries counted, in the
/// order the descriptions first occur.
pub open spec fn type_counts(es: Seq<EntryView>) -> Seq<(Seq<char>, nat)>
    decreases es.len(),
{
    if es.len() == 0 {
        Seq::empty()
    } else {
        let cs = type_counts(es.drop_last());
        let d = es.last().header.entry_type.spec_description();
        match type_index(cs, d) {
            Some(i) => cs.update(i, (d, cs[i].1 + 1)),
            None => cs.push((d, 1nat)),
        }
    }
}

/// `x` put into `s` after every element at least as large: how a stable sort by
/// decreasing size places it.
pub open spec fn insert_desc(s: Seq<(Seq<char>, u64)>, x: (Seq<char>, u64)) -> Seq<
    (Seq<char>, u64),
>
    decreases s.len(),
{
    if s.len() == 0 {
        seq![x]
    } else if s[0].1 < x.1 {
        seq![x] + s
    } else {
        seq![s[0]] + insert_desc(s.drop_first(), x)
    }
}

/// The files sorted by decreasing size, files of equal size kept in archive order.
pub open spec fn sorted_by_size(fs: Seq<(Seq<char>, u64)>) -> Seq<(Seq<char>, u64)>
    decreases fs.len(),
{
    if fs.len() == 0 {
        Seq::empty()
    } else {
        insert_desc(sorted_by_size(fs.drop_last()), fs.last())
    }
}

/// The ten largest files, largest first (fewer where there are fewer files).
pub open spec fn top_files(fs: Seq<(Seq<char>, u64)>) -> Seq<(Seq<char>, u64)> {
    let s = sorted_by_size(fs);
    if s.len() <= 10 {
        s
    } else {
        s.take(10)
    }
}

/// Statistics for a tar archive. The average file size is the total size of the
/// files over their number: see `average_text`.
#[derive(Debug)]
pub struct ArchiveStats {
    pub total_entries: usize,
    pub file_count: usize,
    pub directory_count: usize,
    pub link_count: usize,
    pub other_count: usize,
    pub metadata_count: usize,
    pub total_uncompressed_size: u64,
    pub largest_file: Option<(String, u64)>,
    pub smallest_file: Option<(String, u64)>,
    pub format: Option<TarFormat>,
    pub formats_detected: Vec<TarFormat>,
    pub entry_types: Vec<(String, usize)>,
    pub top_largest_files: Vec<(String, u64)>,
}

/// A (name, size) pair as plain values.
pub open spec fn pair_view(p: (String, u64)) -> (Seq<char>, u64) {
    (p.0@, p.1)
}

/// (name, size) pairs as plain values.
pub open spec fn pairs_view(v: Seq<(String, u64)>) -> Seq<(Seq<char>, u64)> {
    v.map_values(|p: (String, u64)| pair_view(p))
}

/// An optional (name, size) pair as plain values.
pub open spec fn opt_pair_view(o: Option<(String, u64)>) -> Option<(Seq<char>, u64)> {
    match o {
        Some(p) => Some(pair_view(p)),
        None => None,
    }
}

/// (description, count) pairs as plain values.
pub open spec fn counts_view(v: Seq<(String, usize)>) -> Seq<(Seq<char>, nat)> {
    v.map_values(|p: (String, usize)| (p.0@, p.1 as nat))
}

proof fn lemma_insert_desc_at(s: Seq<(Seq<char>, u64)>, x: (Seq<char>, u64), p: int)
    requires
        0 <= p <= s.len(),
        forall|i: int| 0 <= i < p ==> s[i].1 >= x.1,
        p < s.len() ==> s[p].1 < x.1,
    ensures
        insert_desc(s, x) == s.insert(p, x),
    decreases s.len(),
{
    if s.len() == 0 {
        assert(s.insert(p, x) =~= seq![x]);
    } else if p == 0 {
        assert(s.insert(p, x) =~= seq![x] + s);
    } else {
        let t = s.drop_first();
        lemma_insert_desc_at(t, x, p - 1);
        assert(s.insert(p, x) =~= seq![s[0]] + t.insert(p - 1, x));
    }
}

fn insert_by_size(sorted: &mut Vec<(String, u64)>, x: (String, u64))
    ensures
        pairs_view(final(sorted)@) == insert_desc(pairs_view(old(sorted)@), pair_view(x)),
{
    let ghost sv = pairs_view(sorted@);
    let mut p: usize = 0;
    while p < sorted.len() && sorted[p].1 >= x.1
        invariant
            p <= sorted@.len(),
            sv == pairs_view(sorted@),
            forall|i: int| 0 <= i < p ==> sv[i].1 >= x.1,
        decreases sorted@.len() - p,
    {
        p = p + 1;
    }
    proof {
        lemma_insert_desc_at(sv, pair_view(x), p as int);
    }
    sorted.insert(p, x);
    assert(pairs_view(sorted@) =~= sv.insert(p as int, pair_view(x)));
}

fn bump_type(counts: &mut Vec<(String, usize)>, d: &str, Ghost(bound): Ghost<nat>)
    requires
        forall|k: int| 0 <= k < old(counts)@.len() ==> old(counts)@[k].1 <= bound,
        bound < usize::MAX,
    ensures
        counts_view(final(counts)@) == (match type_index(counts_view(old(counts)@), d@) {
            Some(i) => counts_view(old(counts)@).update(
                i,
                (d@, counts_view(old(counts)@)[i].1 + 1),
            ),
            None => counts_view(old(counts)@).push((d@, 1nat)),
        }),
        forall|k: int| 0 <= k < final(counts)@.len() ==> final(counts)@[k].1 <= bound + 1,
{
    let ghost cv = counts_view(counts@);
    let mut i = counts.len();
    assert(cv.take(i as int) =~= cv);
    while i > 0
        invariant
            i <= counts@.len(),
            cv == counts_view(counts@),
            cv == counts_view(old(counts)@),
            type_index(cv, d@) == type_index(cv.take(i as int), d@),
            forall|k: int| 0 <= k < counts@.len() ==> counts@[k].1 <= bound,
            bound < usize::MAX,
        decreases i,
    {
        assert(cv.take(i as int).drop_last() =~= cv.take(i - 1));
        if str_eq(counts[i - 1].0.as_str(), d) {
            assert(cv[i - 1].0 == d@);
            assert(cv.take(i as int).last() == cv[i - 1]);
            assert(type_index(cv, d@) == Some(i - 1));
            let n = counts[i - 1].1 + 1;
            let name = counts[i - 1].0.clone();
            counts.set(i - 1, (name, n));
            assert(counts_view(counts@) =~= cv.update(i - 1, (d@, cv[i - 1].1 + 1)));
            return;
        }
        i = i - 1;
    }
    assert(cv.take(0) =~= Seq::<(Seq<char>, nat)>::empty());
    counts.push((d.to_owned(), 1));
    assert(counts_view(counts@) =~= cv.push((d@, 1nat)));
}

proof fn lemma_size_sum_push(fs: Seq<(Seq<char>, u64)>, x: (Seq<char>, u64))
    ensures
        size_sum(fs.push(x)) == size_sum(fs) + x.1,
{
    assert(fs.push(x).drop_last() =~= fs);
}

/// How the file list of the first `i + 1` entries grows from that of the first `i`.
proof fn lemma_file_list_step(es: Seq<EntryView>, i: int)
    requires
        0 <= i < es.len(),
    ensures
        file_list(es.take(i + 1)) == if counts_as_file(es[i]) {
            file_list(es.take(i)).push((es[i].header.name, es[i].header.size))
        } else {
            file_list(es.take(i))
        },
        size_sum(file_list(es.take(i + 1))) == size_sum(file_list(es.take(i))) + if counts_as_file(
            es[i],
        ) {
            es[i].header.size as int
        } else {
            0
        },
{
    assert(es.take(i + 1).drop_last() =~= es.take(i));
    if counts_as_file(es[i]) {
        lemma_size_sum_push(file_list(es.take(i)), (es[i].header.name, es[i].header.size));
    }
}

proof fn lemma_size_sum_prefix(es: Seq<EntryView>, i: int)
    requires
        0 <= i <= es.len(),
    ensures
        size_sum(file_list(es.take(i))) <= size_sum(file_list(es)),
    decreases es.len() - i,
{
    if i < es.len() {
        lemma_size_sum_prefix(es, i + 1);
        lemma_file_list_step(es, i);
    } else {
        assert(es.take(i) =~= es);
    }
}

/// The total size of the files of an archive, or `None` where it does not fit in 64
/// bits.
pub fn total_file_size(entries: &[TarEntry]) -> (r: Option<u64>)
    ensures
        r == (if size_sum(file_list(entries_view(entries@))) <= u64::MAX {
            Some(size_sum(file_list(entries_view(entries@))) as u64)
        } else {
            None::<u64>
        }),
{
    let ghost ev = entries_view(entries@);
    let mut total: u64 = 0;
    for i in 0..entries.len()
        invariant
            ev == entries_view(entries@),
            total == size_sum(file_list(ev.take(i as int))),
    {
        proof {
            lemma_file_list_step(ev, i as int);
        }
        assert(ev[i as int] == entries@[i as int]@);
        let et = &entries[i].header.entry_type;
        if !et.is_metadata() && et.is_regular() {
            let size = entries[i].header.size;
            if total > u64::MAX - size {
                proof {
                    lemma_size_sum_prefix(ev, i + 1);
                }
                return None;
            }
            total = total + size;
        }
    }
    assert(ev.take(entries@.len() as int) =~= ev);
    Some(total)
}

proof fn lemma_files_push(fs: Seq<(Seq<char>, u64)>, x: (Seq<char>, u64))
    ensures
        largest(fs.push(x)) == (match largest(fs) {
            Some(p) => if x.1 > p.1 {
                Some(x)
            } else {
                Some(p)
            },
            None => Some(x),
        }),
        smallest(fs.push(x)) == (match smallest(fs) {
            Some(p) => if x.1 < p.1 {
                Some(x)
            } else {
                Some(p)
            },
            None => Some(x),
        }),
        sorted_by_size(fs.push(x)) == insert_desc(sorted_by_size(fs), x),
{
    assert(fs.push(x).drop_last() =~= fs);
}

fn add_file(
    sorted: &mut Vec<(String, u64)>,
    big: &mut Option<(String, u64)>,
    small: &mut Option<(String, u64)>,
    name: &String,
    size: u64,
)
    ensures
        pairs_view(final(sorted)@) == insert_desc(pairs_view(old(sorted)@), (name@, size)),
        opt_pair_view(*final(big)) == (match opt_pair_view(*old(big)) {
            Some(p) => if size > p.1 {
                Some((name@, size))
            } else {
                Some(p)
            },
            None => Some((name@, size)),
        }),
        opt_pair_view(*final(small)) == (match opt_pair_view(*old(small)) {
            Some(p) => if size < p.1 {
                Some((name@, size))
            } else {
                Some(p)
            },
            None => Some((name@, size)),
        }),
{
    let replace_big = match big {
        Some(p) => size > p.1,
        None => true,
    };
    if replace_big {
        *big = Some((name.clone(), size));
    }
    let replace_small = match small {
        Some(p) => size < p.1,
        None => true,
    };
    if replace_small {
        *small = Some((name.clone(), size));
    }
    insert_by_size(sorted, (name.clone(), size));
}

/// Compute statistics for an archive: the count of each kind of entry, the total,
/// largest and smallest size of the files, the formats, the count of each entry
/// type and the ten largest files.
pub fn compute_stats(entries: &[TarEntry]) -> (r: ArchiveStats)
    requires
        size_sum(file_list(entries_view(entries@))) <= u64::MAX,
    ensures
        r.total_entries == entries@.len() - metadata_count(entries_view(entries@)),
        r.file_count == kind_count(entries_view(entries@), 0),
        r.directory_count == kind_count(entries_view(entries@), 1),
        r.link_count == kind_count(entries_view(entries@), 2),
        r.other_count == kind_count(entries_view(entries@), 3),
        r.metadata_count == metadata_count(entries_view(entries@)),
        r.total_uncompressed_size == size_sum(file_list(entries_view(entries@))),
        opt_pair_view(r.largest_file) == largest(file_list(entries_view(entries@))),
        opt_pair_view(r.smallest_file) == smallest(file_list(entries_view(entries@))),
        r.formats_detected@ == data_formats(entries_view(entries@)),
        r.format == (if r.formats_detected@.len() > 0 {
            Some(r.formats_detected@[0])
        } else {
            None::<TarFormat>
        }),
        counts_view(r.entry_types@) == type_counts(entries_view(entries@)),
        pairs_view(r.top_largest_files@) == top_files(file_list(entries_view(entries@))),
{
    let ghost ev = entries_view(entries@);
    let mut file_count: usize = 0;
    let mut directory_count: usize = 0;
    let mut link_count: usize = 0;
    let mut other_count: usize = 0;
    let mut metadata: usize = 0;
    let mut total_size: u64 = 0;
    let mut big: Option<(String, u64)> = None;
    let mut small: Option<(String, u64)> = None;
    let mut formats: Vec<TarFormat> = Vec::new();
    let mut entry_types: Vec<(String, usize)> = Vec::new();
    let mut sorted: Vec<(String, u64)> = Vec::new();
    assert(pairs_view(sorted@) =~= Seq::<(Seq<char>, u64)>::empty());
    assert(counts_view(entry_types@) =~= Seq::<(Seq<char>, nat)>::empty());
    for i in 0..entries.len()
        invariant
            ev == entries_view(entries@),
            size_sum(file_list(ev)) <= u64::MAX,
            metadata == metadata_count(ev.take(i as int)),
            file_count == kind_count(ev.take(i as int), 0),
            directory_count == kind_count(ev.take(i as int), 1),
            link_count == kind_count(ev.take(i as int), 2),
            other_count == kind_count(ev.take(i as int), 3),
            metadata + file_count + directory_count + link_count + other_count == i,
            total_size == size_sum(file_list(ev.take(i as int))),
            opt_pair_view(big) == largest(file_list(ev.take(i as int))),
            opt_pair_view(small) == smallest(file_list(ev.take(i as int))),
            pairs_view(sorted@) == sorted_by_size(file_list(ev.take(i as int))),
            formats@ == data_formats(ev.take(i as int)),
            counts_view(entry_types@) == type_counts(ev.take(i as int)),
            forall|k: int| 0 <= k < entry_types@.len() ==> entry_types@[k].1 <= i,
    {
        let ghost fl = file_list(ev.take(i as int));
        proof {
            lemma_file_list_step(ev, i as int);
            lemma_size_sum_prefix(ev, i + 1);
            assert(ev.take(i + 1).drop_last() =~= ev.take(i as int));
        }
        assert(ev[i as int] == entries@[i as int]@);
        let h = &entries[i].header;
        let et = &h.entry_type;
        let desc = et.description();
        bump_type(&mut entry_types, desc, Ghost(i as nat));
        if et.is_metadata() {
            metadata = metadata + 1;
        } else {
            if !contains_format(&formats, h.format) {
                formats.push(h.format);
            }
            if et.is_regular() {
                file_count = file_count + 1;
                total_size = total_size + h.size;
                proof {
                    lemma_files_push(fl, (h.name@, h.size));
                }
                add_file(&mut sorted, &mut big, &mut small, &h.name, h.size);
            } else if et.is_directory() {
                directory_count = directory_count + 1;
            } else if et.is_link() {
                link_count = link_count + 1;
            } else {
                other_count = other_count + 1;
            }
        }
    }
    assert(ev.take(entries@.len() as int) =~= ev);
    let total_entries = entries.len() - metadata;
    let mut top = sorted;
    top.truncate(10);
    assert(pairs_view(top@) =~= top_files(file_list(ev)));
    let format = if formats.len() > 0 {
        Some(formats[0])
    } else {
        None
    };
    ArchiveStats {
        total_entries,
        file_count,
        directory_count,
        link_count,
        other_count,
        metadata_count: metadata,
        total_uncompressed_size: total_size,
        largest_file: big,
        smallest_file: small,
        format,
        formats_detected: formats,
        entry_types,
        top_largest_files: top,
    }
}

pub(crate) fn contains_format(fs: &Vec<TarFormat>, f: TarFormat) -> (r: bool)
    ensures
        r == fs@.contains(f),
{
    for i in 0..fs.len()
        invariant
            forall|j: int| 0 <= j < i ==> fs@[j] != f,
    {
        if fs[i] == f {
            assert(fs@[i as int] == f);
            return true;
        }
    }
    false
}

// ---------------------------------------------------------------------------
// Laws
// ---------------------------------------------------------------------------

/// Every entry of an archive is counted once: as metadata, or as a file, a
/// directory, a link or other.
pub proof fn lemma_counts_partition(es: Seq<EntryView>)
    ensures
        metadata_count(es) + kind_count(es, 0) + kind_count(es, 1) + kind_count(es, 2)
            + kind_count(es, 3) == es.len(),
    decreases es.len(),
{
    if es.len() > 0 {
        lemma_counts_partition(es.drop_last());
    }
}

/// The files whose sizes are added up are exactly the entries counted as files.
pub proof fn lemma_file_list_len(es: Seq<EntryView>)
    ensures
        file_list(es).len() == kind_count(es, 0),
    decreases es.len(),
{
    if es.len() > 0 {
        lemma_file_list_len(es.drop_last());
    }
}

/// The largest file is the first of greatest size; there is one exactly when there
/// are files.
pub proof fn lemma_largest_is_first_max(fs: Seq<(Seq<char>, u64)>)
    ensures
        largest(fs) is None <==> fs.len() == 0,
        largest(fs) matches Some(p) ==> exists|i: int|
            0 <= i < fs.len() && fs[i] == p && (forall|j: int| 0 <= j < i ==> #[trigger] fs[j].1 < p.1)
                && (forall|j: int| 0 <= j < fs.len() ==> #[trigger] fs[j].1 <= p.1),
    decreases fs.len(),
{
    if fs.len() > 0 {
        let fl = fs.drop_last();
        lemma_largest_is_first_max(fl);
        let x = fs.last();
        match largest(fl) {
            Some(p) => {
                let i = choose|i: int|
                    0 <= i < fl.len() && fl[i] == p && (forall|j: int|
                        0 <= j < i ==> #[trigger] fl[j].1 < p.1) && (forall|j: int|
                        0 <= j < fl.len() ==> #[trigger] fl[j].1 <= p.1);
                if x.1 > p.1 {
                    assert(forall|j: int| 0 <= j < fs.len() - 1 ==> #[trigger] fs[j].1 == fl[j].1);
                    assert(fs[fs.len() - 1] == x);
                } else {
                    assert(forall|j: int| 0 <= j < fs.len() - 1 ==> #[trigger] fs[j] == fl[j]);
                    assert(fs[i] == p);
                }
            },
            None => {
                assert(fs[0] == x);
            },
        }
    }
}

/// The smallest file is the first of least size; there is one exactly when there
/// are files.
pub proof fn lemma_smallest_is_first_min(fs: Seq<(Seq<char>, u64)>)
    ensures
        smallest(fs) is None <==> fs.len() == 0,
        smallest(fs) matches Some(p) ==> exists|i: int|
            0 <= i < fs.len() && fs[i] == p && (forall|j: int| 0 <= j < i ==> #[trigger] fs[j].1 > p.1)
                && (forall|j: int| 0 <= j < fs.len() ==> #[trigger] fs[j].1 >= p.1),
    decreases fs.len(),
{
    if fs.len() > 0 {
        let fl = fs.drop_last();
        lemma_smallest_is_first_min(fl);
        let x = fs.last();
        match smallest(fl) {
            Some(p) => {
                let i = choose|i: int|
                    0 <= i < fl.len() && fl[i] == p && (forall|j: int|
                        0 <= j < i ==> #[trigger] fl[j].1 > p.1) && (forall|j: int|
                        0 <= j < fl.len() ==> #[trigger] fl[j].1 >= p.1);
                if x.1 < p.1 {
                    assert(forall|j: int| 0 <= j < fs.len() - 1 ==> #[trigger] fs[j].1 == fl[j].1);
                    assert(fs[fs.len() - 1] == x);
                } else {
                    assert(forall|j: int| 0 <= j < fs.len() - 1 ==> #[trigger] fs[j] == fl[j]);
                    assert(fs[i] == p);
                }
            },
            None => {
                assert(fs[0] == x);
            },
        }
    }
}

/// Whether the sizes decrease along `s`, equal sizes allowed.
pub open spec fn sorted_desc(s: Seq<(Seq<char>, u64)>) -> bool {
    forall|i: int, j: int| 0 <= i < j < s.len() ==> s[i].1 >= s[j].1
}

proof fn lemma_insert_desc_is_insert(s: Seq<(Seq<char>, u64)>, x: (Seq<char>, u64)) -> (p: int)
    ensures
        0 <= p <= s.len(),
        insert_desc(s, x) == s.insert(p, x),
    decreases s.len(),
{
    if s.len() == 0 {
        assert(s.insert(0, x) =~= seq![x]);
        0
    } else if s[0].1 < x.1 {
        assert(s.insert(0, x) =~= seq![x] + s);
        0
    } else {
        let t = s.drop_first();
        let q = lemma_insert_desc_is_insert(t, x);
        assert(s.insert(q + 1, x) =~= seq![s[0]] + t.insert(q, x));
        q + 1
    }
}

proof fn lemma_insert_desc_sorted(s: Seq<(Seq<char>, u64)>, x: (Seq<char>, u64))
    requires
        sorted_desc(s),
    ensures
        sorted_desc(insert_desc(s, x)),
    decreases s.len(),
{
    if s.len() == 0 {
    } else if s[0].1 < x.1 {
        let r = seq![x] + s;
        assert forall|i: int, j: int| 0 <= i < j < r.len() implies r[i].1 >= r[j].1 by {
            if i == 0 {
                assert(s[0].1 >= s[j - 1].1 || j - 1 == 0);
            } else {
                assert(r[i] == s[i - 1] && r[j] == s[j - 1]);
            }
        }
    } else {
        let t = s.drop_first();
        assert(sorted_desc(t)) by {
            assert forall|i: int, j: int| 0 <= i < j < t.len() implies t[i].1 >= t[j].1 by {
                assert(t[i] == s[i + 1] && t[j] == s[j + 1]);
            }
        }
        lemma_insert_desc_sorted(t, x);
        let q = lemma_insert_desc_is_insert(t, x);
        let r = insert_desc(t, x);
        assert forall|k: int| 0 <= k < r.len() implies r[k].1 <= s[0].1 by {
            if k < q {
                assert(r[k] == s[k + 1]);
            } else if k > q {
                assert(r[k] == s[k]);
            }
        }
        let full = seq![s[0]] + r;
        assert forall|i: int, j: int| 0 <= i < j < full.len() implies full[i].1 >= full[j].1 by {
            if i == 0 {
                assert(full[j] == r[j - 1]);
            } else {
                assert(full[i] == r[i - 1] && full[j] == r[j - 1]);
            }
        }
    }
}

/// Sorting by size keeps every file once and orders them by decreasing size.
pub proof fn lemma_sorted_by_size(fs: Seq<(Seq<char>, u64)>)
    ensures
        sorted_desc(sorted_by_size(fs)),
        sorted_by_size(fs).to_multiset() == fs.to_multiset(),
    decreases fs.len(),
{
    broadcast use vstd::seq_lib::to_multiset_build, vstd::seq_lib::to_multiset_insert;

    if fs.len() == 0 {
        assert(sorted_by_size(fs) =~= fs);
    } else {
        let fl = fs.drop_last();
        lemma_sorted_by_size(fl);
        lemma_insert_desc_sorted(sorted_by_size(fl), fs.last());
        let p = lemma_insert_desc_is_insert(sorted_by_size(fl), fs.last());
        assert(fl.push(fs.last()) =~= fs);
    }
}

/// The top files are the largest: they come by decreasing size, there are ten of
/// them or all files where there are fewer, and no file left out is larger than
/// the last of them.
pub proof fn lemma_top_files(fs: Seq<(Seq<char>, u64)>)
    ensures
        sorted_desc(top_files(fs)),
        top_files(fs).len() == if fs.len() <= 10 {
            fs.len()
        } else {
            10
        },
        forall|k: int|
            10 <= k < sorted_by_size(fs).len() ==> #[trigger] sorted_by_size(fs)[k].1
                <= top_files(fs)[9].1,
{
    broadcast use vstd::seq_lib::to_multiset_len;

    lemma_sorted_by_size(fs);
    assert(sorted_by_size(fs).len() == fs.len()) by {
        assert(sorted_by_size(fs).to_multiset().len() == fs.to_multiset().len());
    }
}

/// Files of equal share: where the total size is `k` times the number of files and
/// below `2^53`, the average is `k` with two zero decimals.
pub proof fn lemma_average_of_equal_share(k: nat, count: nat)
    requires
        count >= 1,
        k * count < 0x20_0000_0000_0000,
    ensures
        spec_average_text((k * count) as u64, count) == dec(k) + seq!['.', '0', '0'],
{
    let total = k * count;
    assert(two_pow(53) == 0x20_0000_0000_0000) by {
        crate::text::lemma_two_pow_64();
    }
    assert(k <= total) by (nonlinear_arith)
        requires
            count >= 1,
            total == k * count,
    ;
    assert(count <= total || k == 0) by (nonlinear_arith)
        requires
            total == k * count,
    ;
    lemma_bit_len_bound(total, 53);
    assert(nearest_f64(total) == total);
    assert(((k * count) as u64) as nat == total);
    if count < 0x20_0000_0000_0000 {
        lemma_bit_len_bound(count, 53);
    }
    let q = quotient_f64(nearest_f64(total), nearest_f64(count));
    if k == 0 {
        assert(total == 0) by (nonlinear_arith)
            requires
                total == k * count,
                k == 0,
        ;
        assert(q == (0nat, 1nat));
    } else {
        assert(count < 0x20_0000_0000_0000);
        assert(nearest_f64(count) == count);
        assert(total >= 1) by (nonlinear_arith)
            requires
                total == k * count,
                k >= 1,
                count >= 1,
        ;
        lemma_quotient_exact(k, count);
    }
    let (num, den) = q;
    assert(num == k * den && den >= 1);
    assert(round_div(num * 100, den) == k * 100) by {
        lemma_round_div_scale(k * 100, 1, den);
        assert(round_div(k * 100, 1) == k * 100);
        assert(k * 100 * den == num * 100) by (nonlinear_arith)
            requires
                num == k * den,
        ;
    }
    assert((k * 100) / 100 == k);
    assert((k * 100) % 100 == 0);
    assert(dec(0) == seq!['0']);
    assert(pad_left(seq!['0'], 2, '0') =~= seq!['0', '0']);
    assert(fixed_point(num, den, 2) =~= dec(k) + seq!['.', '0', '0']);
}

} // verus!
