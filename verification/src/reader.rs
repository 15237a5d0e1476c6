//! Archive reader: tar archive parsing entry by entry, handling PAX extended
//! headers, GNU long name/long link extensions, and content extraction.

use vstd::prelude::*;
use crate::header::{
    header_error_message, pax_outcome, records_view, spec_apply_pax,
    spec_parse_header, parse_pax_records_checked, EntryType, HeaderError, HeaderFault,
    HeaderView, PaxOutcome, PaxRecord, TarFormat, TarHeader, BLOCK_SIZE, is_zero_block,
};
use crate::text::{chars_of, dec, decode_lossy, utf8_lossy, TextBuf};

verus! {

/// An entry from a tar archive.
#[derive(Debug, Clone)]
pub struct TarEntry {
    pub header: TarHeader,
    /// Raw content data (for regular files and metadata entries).
    pub content: Vec<u8>,
    /// Raw 512-byte header block (for inspection).
    pub raw_block: [u8; BLOCK_SIZE],
    /// Offset of the header block in the archive.
    pub offset: u64,
}

/// An entry as plain values.
#[verifier::ext_equal]
pub struct EntryView {
    pub header: HeaderView,
    pub content: Seq<u8>,
    pub raw_block: Seq<u8>,
    pub offset: u64,
}

impl View for TarEntry {
    type V = EntryView;

    open spec fn view(&self) -> EntryView {
        EntryView {
            header: self.header@,
            content: self.content@,
            raw_block: self.raw_block@,
            offset: self.offset,
        }
    }
}

/// The entries of a list, by their views.
pub open spec fn entries_view(v: Seq<TarEntry>) -> Seq<EntryView> {
    v.map_values(|e: TarEntry| e@)
}

/// A raw 512-byte block from the archive.
#[derive(Debug, Clone)]
pub struct RawBlock {
    pub block: [u8; BLOCK_SIZE],
    pub offset: u64,
    pub is_header: bool,
}

/// Errors that can occur during archive reading.
#[derive(Debug)]
pub enum ReaderError {
    Io(String),
    TruncatedHeader,
    TruncatedContent { expected: u64 },
    HeaderParse(String),
    PaxParse(String),
}

/// A reader error as plain values.
pub enum ReaderFault {
    Io(Seq<char>),
    TruncatedHeader,
    TruncatedContent { expected: u64 },
    HeaderParse(Seq<char>),
    PaxParse(Seq<char>),
}

impl View for ReaderError {
    type V = ReaderFault;

    open spec fn view(&self) -> ReaderFault {
        match self {
            ReaderError::Io(m) => ReaderFault::Io(m@),
            ReaderError::TruncatedHeader => ReaderFault::TruncatedHeader,
            ReaderError::TruncatedContent { expected } => ReaderFault::TruncatedContent {
                expected: *expected,
            },
            ReaderError::HeaderParse(m) => ReaderFault::HeaderParse(m@),
            ReaderError::PaxParse(m) => ReaderFault::PaxParse(m@),
        }
    }
}

/// The message of a reader error.
pub open spec fn reader_error_message(e: ReaderFault) -> Seq<char> {
    match e {
        ReaderFault::Io(m) => "I/O error: "@ + m,
        ReaderFault::TruncatedHeader => "truncated header (less than 512 bytes)"@,
        ReaderFault::TruncatedContent { expected } => "truncated content (expected "@ + dec(
            expected as nat,
        ) + " bytes)"@,
        ReaderFault::HeaderParse(m) => "header parse error: "@ + m,
        ReaderFault::PaxParse(m) => "PAX parse error: "@ + m,
    }
}

impl ReaderError {
    /// The human-readable message of the error.
    pub fn message(&self) -> (m: String)
        ensures
            m@ == reader_error_message(self@),
    {
        match self {
            ReaderError::Io(msg) => {
                let mut b = TextBuf::of("I/O error: ");
                b.push_str(msg.as_str());
                b.into_string()
            },
            ReaderError::TruncatedHeader => "truncated header (less than 512 bytes)".to_owned(),
            ReaderError::TruncatedContent { expected } => {
                let mut b = TextBuf::of("truncated content (expected ");
                b.push_dec(*expected);
                b.push_str(" bytes)");
                b.into_string()
            },
            ReaderError::HeaderParse(msg) => {
                let mut b = TextBuf::of("header parse error: ");
                b.push_str(msg.as_str());
                b.into_string()
            },
            ReaderError::PaxParse(msg) => {
                let mut b = TextBuf::of("PAX parse error: ");
                b.push_str(msg.as_str());
                b.into_string()
            },
        }
    }
}

// ---------------------------------------------------------------------------
// The reading of an archive, as plain values
// ---------------------------------------------------------------------------

/// What reading content gives: the bytes and the position after the padding, a
/// truncation, or a stop of the program (a size beyond what a buffer can hold).
pub enum ContentOutcome {
    Read(Seq<u8>, nat),
    Truncated,
    Abort,
}

/// The bytes of padding after content of `size` bytes, up to the block boundary.
pub open spec fn padding(size: nat) -> nat {
    ((512 - size % 512) as nat) % 512
}

/// Reading `size` bytes of content at `pos`, then skipping the padding.
pub open spec fn content_at(data: Seq<u8>, pos: nat, size: u64) -> ContentOutcome {
    if size == 0 {
        ContentOutcome::Read(seq![], pos)
    } else if size > isize::MAX {
        ContentOutcome::Abort
    } else if pos + size + padding(size as nat) > data.len() {
        ContentOutcome::Truncated
    } else {
        ContentOutcome::Read(
            data.subrange(pos as int, (pos + size) as int),
            (pos + size + padding(size as nat)) as nat,
        )
    }
}

/// `s` without trailing NUL characters.
pub open spec fn trim_nul_end(s: Seq<char>) -> Seq<char>
    decreases s.len(),
{
    if s.len() > 0 && s.last() == '\0' {
        trim_nul_end(s.drop_last())
    } else {
        s
    }
}

/// What a GNU long name or long link entry names: its content decoded leniently,
/// without trailing NULs.
pub open spec fn long_text(content: Seq<u8>) -> Seq<char> {
    trim_nul_end(utf8_lossy(content))
}

/// The state between two headers: the position, the PAX records and GNU long
/// name and link that wait for the next ordinary entry.
pub struct ReadState {
    pub pos: nat,
    pub pax: Seq<(Seq<char>, Seq<char>)>,
    pub long_name: Option<Seq<char>>,
    pub long_link: Option<Seq<char>>,
}

/// What reading an archive gives: its entries, an error, or a stop of the program.
pub enum ReadOutcome {
    Entries(Seq<EntryView>),
    Fault(ReaderFault),
    Abort,
}

/// `inner` with the entry `e` read before it.
pub open spec fn read_after(e: EntryView, inner: ReadOutcome) -> ReadOutcome {
    match inner {
        ReadOutcome::Entries(es) => ReadOutcome::Entries(seq![e] + es),
        other => other,
    }
}

/// An ordinary header once the waiting PAX records, long name and long link apply.
pub open spec fn complete_header(h: HeaderView, st: ReadState) -> HeaderView {
    let h1 = if st.pax.len() > 0 {
        spec_apply_pax(h, st.pax)
    } else {
        h
    };
    let h2 = match st.long_name {
        Some(n) => HeaderView { name: n, format: TarFormat::Gnu, ..h1 },
        None => h1,
    };
    match st.long_link {
        Some(l) => HeaderView { linkname: l, format: TarFormat::Gnu, ..h2 },
        None => h2,
    }
}

/// Reading the archive `data` from the state `st` on. A header block that is
/// missing ends the archive, a partial one is an error; a zero block ends the
/// archive. PAX headers add their records to those that wait; GNU long name and long
/// link entries set the name or link that waits; every other entry takes what waits,
/// and reads content when it is a regular file of nonzero size. Metadata entries are
/// listed too, with their content.
pub open spec fn read_from(data: Seq<u8>, st: ReadState) -> ReadOutcome
    decreases data.len() - st.pos,
{
    let pos = st.pos;
    if pos >= data.len() {
        ReadOutcome::Entries(seq![])
    } else if data.len() - pos < 512 {
        ReadOutcome::Fault(ReaderFault::TruncatedHeader)
    } else {
        let block = data.subrange(pos as int, (pos + 512) as int);
        let after = pos + 512;
        match spec_parse_header(block) {
            Err(HeaderFault::EndOfArchive) => ReadOutcome::Entries(seq![]),
            Err(e) => ReadOutcome::Fault(ReaderFault::HeaderParse(header_error_message(e))),
            Ok(h) => {
                if h.entry_type is PaxHeader || h.entry_type is PaxGlobal {
                    match content_at(data, after, h.size) {
                        ContentOutcome::Abort => ReadOutcome::Abort,
                        ContentOutcome::Truncated => ReadOutcome::Fault(
                            ReaderFault::TruncatedContent { expected: h.size },
                        ),
                        ContentOutcome::Read(c, next) => match pax_outcome(c) {
                            PaxOutcome::Abort => ReadOutcome::Abort,
                            PaxOutcome::Fault(e) => ReadOutcome::Fault(
                                ReaderFault::PaxParse(header_error_message(e)),
                            ),
                            PaxOutcome::Records(rs) => read_after(
                                EntryView { header: h, content: c, raw_block: block, offset: pos as u64 },
                                read_from(data, ReadState { pos: next, pax: st.pax + rs, ..st }),
                            ),
                        },
                    }
                } else if h.entry_type is GnuLongName || h.entry_type is GnuLongLink {
                    match content_at(data, after, h.size) {
                        ContentOutcome::Abort => ReadOutcome::Abort,
                        ContentOutcome::Truncated => ReadOutcome::Fault(
                            ReaderFault::TruncatedContent { expected: h.size },
                        ),
                        ContentOutcome::Read(c, next) => read_after(
                            EntryView { header: h, content: c, raw_block: block, offset: pos as u64 },
                            read_from(
                                data,
                                if h.entry_type is GnuLongName {
                                    ReadState { pos: next, long_name: Some(long_text(c)), ..st }
                                } else {
                                    ReadState { pos: next, long_link: Some(long_text(c)), ..st }
                                },
                            ),
                        ),
                    }
                } else {
                    let hc = complete_header(h, st);
                    let size: u64 = if hc.entry_type.spec_is_regular() && hc.size > 0 {
                        hc.size
                    } else {
                        0
                    };
                    match content_at(data, after, size) {
                        ContentOutcome::Abort => ReadOutcome::Abort,
                        ContentOutcome::Truncated => ReadOutcome::Fault(
                            ReaderFault::TruncatedContent { expected: size },
                        ),
                        ContentOutcome::Read(c, next) => read_after(
                            EntryView { header: hc, content: c, raw_block: block, offset: pos as u64 },
                            read_from(
                                data,
                                ReadState { pos: next, pax: seq![], long_name: None, long_link: None },
                            ),
                        ),
                    }
                }
            },
        }
    }
}

/// The outcome of reading the whole archive `data`.
pub open spec fn read_outcome(data: Seq<u8>) -> ReadOutcome {
    read_from(data, ReadState { pos: 0, pax: seq![], long_name: None, long_link: None })
}


/// `outer` once the entries `done` have been read before `inner`.
pub open spec fn read_prefix(done: Seq<EntryView>, inner: ReadOutcome) -> ReadOutcome {
    match inner {
        ReadOutcome::Entries(es) => ReadOutcome::Entries(done + es),
        other => other,
    }
}

/// Whether an entry holds the content its header calls for: a regular file of
/// nonzero size exactly that many bytes (a size a buffer can hold), any other
/// entry that is not metadata none.
pub open spec fn content_fits(e: EntryView) -> bool {
    !e.header.entry_type.spec_is_metadata() ==> if e.header.entry_type.spec_is_regular()
        && e.header.size > 0 {
        e.content.len() == e.header.size && e.header.size <= isize::MAX
    } else {
        e.content.len() == 0
    }
}

/// Every entry read from an archive holds the content its header calls for.
pub proof fn lemma_read_content_fits(data: Seq<u8>, st: ReadState)
    ensures
        read_from(data, st) matches ReadOutcome::Entries(es) ==> forall|i: int|
            0 <= i < es.len() ==> content_fits(#[trigger] es[i]),
    decreases data.len() - st.pos,
{
    let pos = st.pos;
    if pos < data.len() && data.len() - pos >= 512 {
        let block = data.subrange(pos as int, (pos + 512) as int);
        let after = pos + 512;
        if let Ok(h) = spec_parse_header(block) {
            if h.entry_type is PaxHeader || h.entry_type is PaxGlobal {
                if let ContentOutcome::Read(c, next) = content_at(data, after, h.size) {
                    if let PaxOutcome::Records(rs) = pax_outcome(c) {
                        lemma_read_content_fits(data, ReadState { pos: next, pax: st.pax + rs, ..st });
                    }
                }
            } else if h.entry_type is GnuLongName || h.entry_type is GnuLongLink {
                if let ContentOutcome::Read(c, next) = content_at(data, after, h.size) {
                    let st2 = if h.entry_type is GnuLongName {
                        ReadState { pos: next, long_name: Some(long_text(c)), ..st }
                    } else {
                        ReadState { pos: next, long_link: Some(long_text(c)), ..st }
                    };
                    lemma_read_content_fits(data, st2);
                }
            } else {
                let hc = complete_header(h, st);
                let size: u64 = if hc.entry_type.spec_is_regular() && hc.size > 0 {
                    hc.size
                } else {
                    0
                };
                if let ContentOutcome::Read(c, next) = content_at(data, after, size) {
                    lemma_read_content_fits(
                        data,
                        ReadState { pos: next, pax: seq![], long_name: None, long_link: None },
                    );
                }
            }
        }
    }
}

/// Whether a block is the header of an ordinary entry: it parses, and it is no PAX
/// header and no GNU long name or long link entry.
pub open spec fn ordinary_block(b: Seq<u8>) -> bool {
    spec_parse_header(b) matches Ok(h) && !(h.entry_type is PaxHeader || h.entry_type is PaxGlobal
        || h.entry_type is GnuLongName || h.entry_type is GnuLongLink)
}

/// Whether nothing waits for the next ordinary entry.
pub open spec fn nothing_waits(st: ReadState) -> bool {
    st.pax.len() == 0 && st.long_name is None && st.long_link is None
}

proof fn lemma_first_as_written(data: Seq<u8>, st: ReadState)
    requires
        nothing_waits(st),
    ensures
        read_from(data, st) matches ReadOutcome::Entries(es) ==> (es.len() > 0 && ordinary_block(
            es[0].raw_block,
        ) ==> spec_parse_header(es[0].raw_block) == Ok::<HeaderView, HeaderFault>(es[0].header)),
{
    let pos = st.pos;
    if pos < data.len() && data.len() - pos >= 512 {
        let block = data.subrange(pos as int, (pos + 512) as int);
        if let Ok(h) = spec_parse_header(block) {
            assert(complete_header(h, st) == h);
        }
    }
}

proof fn lemma_ordinary_after_ordinary(data: Seq<u8>, st: ReadState)
    ensures
        read_from(data, st) matches ReadOutcome::Entries(es) ==> forall|i: int|
            0 <= i && i + 1 < es.len() && ordinary_block(es[i].raw_block) && ordinary_block(
                #[trigger] es[i + 1].raw_block,
            ) ==> spec_parse_header(es[i + 1].raw_block) == Ok::<HeaderView, HeaderFault>(
                es[i + 1].header,
            ),
    decreases data.len() - st.pos,
{
    let pos = st.pos;
    if pos < data.len() && data.len() - pos >= 512 {
        let block = data.subrange(pos as int, (pos + 512) as int);
        let after = pos + 512;
        if let Ok(h) = spec_parse_header(block) {
            let e_of = |hh: HeaderView, c: Seq<u8>|
                EntryView { header: hh, content: c, raw_block: block, offset: pos as u64 };
            if h.entry_type is PaxHeader || h.entry_type is PaxGlobal {
                if let ContentOutcome::Read(c, next) = content_at(data, after, h.size) {
                    if let PaxOutcome::Records(rs) = pax_outcome(c) {
                        let st2 = ReadState { pos: next, pax: st.pax + rs, ..st };
                        lemma_ordinary_after_ordinary(data, st2);
                        lemma_shift_ordinary(e_of(h, c), read_from(data, st2), false);
                    }
                }
            } else if h.entry_type is GnuLongName || h.entry_type is GnuLongLink {
                if let ContentOutcome::Read(c, next) = content_at(data, after, h.size) {
                    let st2 = if h.entry_type is GnuLongName {
                        ReadState { pos: next, long_name: Some(long_text(c)), ..st }
                    } else {
                        ReadState { pos: next, long_link: Some(long_text(c)), ..st }
                    };
                    lemma_ordinary_after_ordinary(data, st2);
                    lemma_shift_ordinary(e_of(h, c), read_from(data, st2), false);
                }
            } else {
                let hc = complete_header(h, st);
                let size: u64 = if hc.entry_type.spec_is_regular() && hc.size > 0 {
                    hc.size
                } else {
                    0
                };
                if let ContentOutcome::Read(c, next) = content_at(data, after, size) {
                    let st2 = ReadState { pos: next, pax: seq![], long_name: None, long_link: None };
                    lemma_ordinary_after_ordinary(data, st2);
                    lemma_first_as_written(data, st2);
                    lemma_shift_ordinary(e_of(hc, c), read_from(data, st2), true);
                }
            }
        }
    }
}

proof fn lemma_shift_ordinary(e: EntryView, inner: ReadOutcome, first_ok: bool)
    requires
        inner matches ReadOutcome::Entries(es) ==> forall|i: int|
            0 <= i && i + 1 < es.len() && ordinary_block(es[i].raw_block) && ordinary_block(
                #[trigger] es[i + 1].raw_block,
            ) ==> spec_parse_header(es[i + 1].raw_block) == Ok::<HeaderView, HeaderFault>(
                es[i + 1].header,
            ),
        ordinary_block(e.raw_block) ==> first_ok,
        first_ok ==> (inner matches ReadOutcome::Entries(es) ==> (es.len() > 0 && ordinary_block(
            es[0].raw_block,
        ) ==> spec_parse_header(es[0].raw_block) == Ok::<HeaderView, HeaderFault>(es[0].header))),
    ensures
        read_after(e, inner) matches ReadOutcome::Entries(es) ==> forall|i: int|
            0 <= i && i + 1 < es.len() && ordinary_block(es[i].raw_block) && ordinary_block(
                #[trigger] es[i + 1].raw_block,
            ) ==> spec_parse_header(es[i + 1].raw_block) == Ok::<HeaderView, HeaderFault>(
                es[i + 1].header,
            ),
{
    if let ReadOutcome::Entries(rest) = inner {
        let es = seq![e] + rest;
        assert forall|i: int|
            0 <= i && i + 1 < es.len() && ordinary_block(es[i].raw_block) && ordinary_block(
                #[trigger] es[i + 1].raw_block,
            ) implies spec_parse_header(es[i + 1].raw_block) == Ok::<HeaderView, HeaderFault>(
                es[i + 1].header,
            ) by {
            assert(es[i + 1] == rest[i]);
            if i > 0 {
                assert(es[i] == rest[i - 1]);
                assert(rest[(i - 1) + 1] == rest[i]);
            }
        }
    }
}

/// PAX records, a GNU long name and a GNU long link apply to the one ordinary entry
/// that follows them and to no later one: an ordinary entry that comes first, or
/// right after another ordinary entry, is read exactly as its own header block says.
pub proof fn lemma_ordinary_entries_as_written(data: Seq<u8>)
    ensures
        read_outcome(data) matches ReadOutcome::Entries(es) ==> forall|i: int|
            0 <= i < es.len() && ordinary_block(#[trigger] es[i].raw_block) && (i == 0
                || ordinary_block(es[i - 1].raw_block)) ==> spec_parse_header(es[i].raw_block)
                == Ok::<HeaderView, HeaderFault>(es[i].header),
{
    let st = ReadState { pos: 0, pax: seq![], long_name: None, long_link: None };
    lemma_ordinary_after_ordinary(data, st);
    lemma_first_as_written(data, st);
    if let ReadOutcome::Entries(es) = read_outcome(data) {
        assert forall|i: int|
            0 <= i < es.len() && ordinary_block(#[trigger] es[i].raw_block) && (i == 0
                || ordinary_block(es[i - 1].raw_block)) implies spec_parse_header(es[i].raw_block)
            == Ok::<HeaderView, HeaderFault>(es[i].header) by {
            if i > 0 {
                assert(es[(i - 1) + 1] == es[i]);
            }
        }
    }
}

// ---------------------------------------------------------------------------
// Reading
// ---------------------------------------------------------------------------

enum ContentRead {
    Read(Vec<u8>, usize),
    Truncated,
    Abort,
}

/// The bytes `data[from..to]`, copied.
fn copy_bytes(data: &[u8], from: usize, to: usize) -> (v: Vec<u8>)
    requires
        from <= to <= data@.len(),
    ensures
        v@ == data@.subrange(from as int, to as int),
{
    let mut v: Vec<u8> = Vec::new();
    let mut i = from;
    while i < to
        invariant
            from <= i <= to <= data@.len(),
            v@ == data@.subrange(from as int, i as int),
        decreases to - i,
    {
        v.push(data[i]);
        assert(data@.subrange(from as int, i + 1) =~= data@.subrange(from as int, i as int).push(
            data@[i as int],
        ));
        i = i + 1;
    }
    v
}

/// Read content data, skipping padding to the next block boundary.
fn read_content(data: &[u8], pos: usize, size: u64) -> (r: ContentRead)
    requires
        pos <= data@.len(),
    ensures
        match r {
            ContentRead::Read(v, next) => content_at(data@, pos as nat, size) == ContentOutcome::Read(
                v@,
                next as nat,
            ),
            ContentRead::Truncated => content_at(data@, pos as nat, size) is Truncated,
            ContentRead::Abort => content_at(data@, pos as nat, size) is Abort,
        },
{
    if size == 0 {
        return ContentRead::Read(Vec::new(), pos);
    }
    if size > isize::MAX as u64 {
        return ContentRead::Abort;
    }
    let avail = (data.len() - pos) as u64;
    let pad = (512 - size % 512) % 512;
    if size > avail || pad > avail - size {
        return ContentRead::Truncated;
    }
    let end = pos + size as usize;
    let v = copy_bytes(data, pos, end);
    ContentRead::Read(v, end + pad as usize)
}

/// `s` without trailing NUL characters.
fn trim_nul_end_string(s: &str) -> (r: String)
    ensures
        r@ == trim_nul_end(s@),
{
    let c = chars_of(s);
    let mut k = c.len();
    assert(s@.take(k as int) =~= s@);
    while k > 0 && c[k - 1] == '\0'
        invariant
            c@ == s@,
            k <= c@.len(),
            trim_nul_end(s@) == trim_nul_end(s@.take(k as int)),
        decreases k,
    {
        assert(s@.take(k as int).drop_last() =~= s@.take(k - 1));
        k = k - 1;
    }
    s.substring_char(0, k).to_owned()
}

fn long_text_string(c: &[u8]) -> (r: String)
    ensures
        r@ == long_text(c@),
{
    let lossy = decode_lossy(c);
    trim_nul_end_string(lossy.as_str())
}

/// The state of the reader, as plain values.
pub open spec fn state_view(
    pos: usize,
    pax: Seq<PaxRecord>,
    long_name: Option<String>,
    long_link: Option<String>,
) -> ReadState {
    ReadState {
        pos: pos as nat,
        pax: records_view(pax),
        long_name: match long_name {
            Some(n) => Some(n@),
            None => None,
        },
        long_link: match long_link {
            Some(l) => Some(l@),
            None => None,
        },
    }
}

/// What is read in all: the entries read so far, then what reading from the state
/// on gives.
pub open spec fn total_outcome(
    data: Seq<u8>,
    entries: Seq<TarEntry>,
    pos: usize,
    pax: Seq<PaxRecord>,
    long_name: Option<String>,
    long_link: Option<String>,
) -> ReadOutcome {
    read_prefix(entries_view(entries), read_from(data, state_view(pos, pax, long_name, long_link)))
}

/// What one step of reading leaves: the next position, the end of the archive, an
/// error, or a stop.
pub open spec fn step_ok(
    r: Option<Result<Option<usize>, ReaderError>>,
    before: ReadOutcome,
    data: Seq<u8>,
    pos: usize,
    entries: Seq<TarEntry>,
    pax: Seq<PaxRecord>,
    long_name: Option<String>,
    long_link: Option<String>,
) -> bool {
    match r {
        Some(Ok(Some(next))) => pos < next <= data.len() && before == total_outcome(
            data,
            entries,
            next,
            pax,
            long_name,
            long_link,
        ),
        Some(Ok(None)) => before == ReadOutcome::Entries(entries_view(entries)),
        Some(Err(e)) => before == ReadOutcome::Fault(e@),
        None => before is Abort,
    }
}

proof fn lemma_prefix_after(done: Seq<EntryView>, e: EntryView, inner: ReadOutcome)
    ensures
        read_prefix(done, read_after(e, inner)) == read_prefix(done + seq![e], inner),
{
    if inner is Entries {
        assert(done + (seq![e] + inner->Entries_0) =~= done + seq![e] + inner->Entries_0);
    }
}

/// A PAX header: its content holds records that wait for the next ordinary entry.
fn read_pax_entry(
    data: &[u8],
    pos: usize,
    block: [u8; BLOCK_SIZE],
    parsed: TarHeader,
    entries: &mut Vec<TarEntry>,
    pax: &mut Vec<PaxRecord>,
    long_name: &Option<String>,
    long_link: &Option<String>,
) -> (r: Option<Result<Option<usize>, ReaderError>>)
    requires
        pos + 512 <= data.len(),
        block@ == data@.subrange(pos as int, pos + 512),
        spec_parse_header(block@) == Ok::<HeaderView, HeaderFault>(parsed@),
        parsed.entry_type is PaxHeader || parsed.entry_type is PaxGlobal,
    ensures
        step_ok(
            r,
            total_outcome(data@, old(entries)@, pos, old(pax)@, *long_name, *long_link),
            data@,
            pos,
            final(entries)@,
            final(pax)@,
            *long_name,
            *long_link,
        ),
{
    let ghost done = entries_view(entries@);
    let ghost st = state_view(pos, pax@, *long_name, *long_link);
    let size = parsed.size;
    let (content, next) = match read_content(data, pos + 512, size) {
        ContentRead::Read(c, n) => (c, n),
        ContentRead::Truncated => {
            return Some(Err(ReaderError::TruncatedContent { expected: size }));
        },
        ContentRead::Abort => {
            return None;
        },
    };
    let mut records = match parse_pax_records_checked(content.as_slice()) {
        Some(Ok(r)) => r,
        Some(Err(e)) => {
            return Some(Err(ReaderError::PaxParse(e.message())));
        },
        None => {
            return None;
        },
    };
    let ghost rs = records_view(records@);
    let ghost old_pax = pax@;
    pax.append(&mut records);
    let ghost e = EntryView {
        header: parsed@,
        content: content@,
        raw_block: block@,
        offset: pos as u64,
    };
    entries.push(TarEntry { header: parsed, content, raw_block: block, offset: pos as u64 });
    proof {
        assert(records_view(pax@) =~= records_view(old_pax) + rs);
        assert(entries_view(entries@) =~= done + seq![e]);
        let inner = read_from(data@, state_view(next, pax@, *long_name, *long_link));
        assert(read_from(data@, st) == read_after(e, inner));
        lemma_prefix_after(done, e, inner);
    }
    Some(Ok(Some(next)))
}

/// A GNU long name or long link entry: its content names the next ordinary entry.
fn read_long_entry(
    data: &[u8],
    pos: usize,
    block: [u8; BLOCK_SIZE],
    parsed: TarHeader,
    entries: &mut Vec<TarEntry>,
    pax: &Vec<PaxRecord>,
    long_name: &mut Option<String>,
    long_link: &mut Option<String>,
) -> (r: Option<Result<Option<usize>, ReaderError>>)
    requires
        pos + 512 <= data.len(),
        block@ == data@.subrange(pos as int, pos + 512),
        spec_parse_header(block@) == Ok::<HeaderView, HeaderFault>(parsed@),
        parsed.entry_type is GnuLongName || parsed.entry_type is GnuLongLink,
    ensures
        step_ok(
            r,
            total_outcome(data@, old(entries)@, pos, pax@, *old(long_name), *old(long_link)),
            data@,
            pos,
            final(entries)@,
            pax@,
            *final(long_name),
            *final(long_link),
        ),
{
    let ghost done = entries_view(entries@);
    let ghost st = state_view(pos, pax@, *long_name, *long_link);
    let size = parsed.size;
    let (content, next) = match read_content(data, pos + 512, size) {
        ContentRead::Read(c, n) => (c, n),
        ContentRead::Truncated => {
            return Some(Err(ReaderError::TruncatedContent { expected: size }));
        },
        ContentRead::Abort => {
            return None;
        },
    };
    let text = long_text_string(content.as_slice());
    if parsed.entry_type == EntryType::GnuLongName {
        *long_name = Some(text);
    } else {
        *long_link = Some(text);
    }
    let ghost e = EntryView {
        header: parsed@,
        content: content@,
        raw_block: block@,
        offset: pos as u64,
    };
    entries.push(TarEntry { header: parsed, content, raw_block: block, offset: pos as u64 });
    proof {
        assert(entries_view(entries@) =~= done + seq![e]);
        let inner = read_from(data@, state_view(next, pax@, *long_name, *long_link));
        assert(read_from(data@, st) == read_after(e, inner));
        lemma_prefix_after(done, e, inner);
    }
    Some(Ok(Some(next)))
}

/// An ordinary entry: it takes the records, long name and long link that wait, and
/// its content when it is a regular file of nonzero size.
fn read_plain_entry(
    data: &[u8],
    pos: usize,
    block: [u8; BLOCK_SIZE],
    parsed: TarHeader,
    entries: &mut Vec<TarEntry>,
    pax: &mut Vec<PaxRecord>,
    long_name: &mut Option<String>,
    long_link: &mut Option<String>,
) -> (r: Option<Result<Option<usize>, ReaderError>>)
    requires
        pos + 512 <= data.len(),
        block@ == data@.subrange(pos as int, pos + 512),
        spec_parse_header(block@) == Ok::<HeaderView, HeaderFault>(parsed@),
        !(parsed.entry_type is GnuLongName || parsed.entry_type is GnuLongLink
            || parsed.entry_type is PaxHeader || parsed.entry_type is PaxGlobal),
    ensures
        step_ok(
            r,
            total_outcome(data@, old(entries)@, pos, old(pax)@, *old(long_name), *old(long_link)),
            data@,
            pos,
            final(entries)@,
            final(pax)@,
            *final(long_name),
            *final(long_link),
        ),
{
    let ghost done = entries_view(entries@);
    let ghost st = state_view(pos, pax@, *long_name, *long_link);
    let ghost h0 = parsed@;
    let mut header = parsed;
    if pax.len() > 0 {
        header.apply_pax(pax.as_slice());
    }
    *pax = Vec::new();
    let ln = long_name.take();
    match ln {
        Some(n) => {
            header.name = n;
            header.format = TarFormat::Gnu;
        },
        None => {},
    }
    let ll = long_link.take();
    match ll {
        Some(l) => {
            header.linkname = l;
            header.format = TarFormat::Gnu;
        },
        None => {},
    }
    let size: u64 = if header.entry_type.is_regular() && header.size > 0 {
        header.size
    } else {
        0
    };
    assert(header@ =~= complete_header(h0, st));
    let (content, next) = match read_content(data, pos + 512, size) {
        ContentRead::Read(c, n) => (c, n),
        ContentRead::Truncated => {
            return Some(Err(ReaderError::TruncatedContent { expected: size }));
        },
        ContentRead::Abort => {
            return None;
        },
    };
    let ghost e = EntryView {
        header: header@,
        content: content@,
        raw_block: block@,
        offset: pos as u64,
    };
    entries.push(TarEntry { header, content, raw_block: block, offset: pos as u64 });
    proof {
        assert(entries_view(entries@) =~= done + seq![e]);
        assert(records_view(pax@) =~= Seq::<(Seq<char>, Seq<char>)>::empty());
        let inner = read_from(data@, state_view(next, pax@, *long_name, *long_link));
        assert(read_from(data@, st) == read_after(e, inner));
        lemma_prefix_after(done, e, inner);
    }
    Some(Ok(Some(next)))
}

/// One header block and what belongs to it.
fn read_step(
    data: &[u8],
    pos: usize,
    entries: &mut Vec<TarEntry>,
    pax: &mut Vec<PaxRecord>,
    long_name: &mut Option<String>,
    long_link: &mut Option<String>,
) -> (r: Option<Result<Option<usize>, ReaderError>>)
    requires
        pos <= data@.len(),
    ensures
        step_ok(
            r,
            total_outcome(data@, old(entries)@, pos, old(pax)@, *old(long_name), *old(long_link)),
            data@,
            pos,
            final(entries)@,
            final(pax)@,
            *final(long_name),
            *final(long_link),
        ),
{
    let ghost done = entries_view(entries@);
    proof {
        assert(done + seq![] =~= done);
    }
    if pos >= data.len() {
        return Some(Ok(None));
    }
    if data.len() - pos < 512 {
        return Some(Err(ReaderError::TruncatedHeader));
    }
    let block = copy_block(data, pos);
    let parsed = match TarHeader::parse(&block) {
        Ok(h) => h,
        Err(HeaderError::EndOfArchive) => {
            return Some(Ok(None));
        },
        Err(e) => {
            return Some(Err(ReaderError::HeaderParse(e.message())));
        },
    };
    let et = parsed.entry_type;
    if et == EntryType::PaxHeader || et == EntryType::PaxGlobal {
        read_pax_entry(data, pos, block, parsed, entries, pax, long_name, long_link)
    } else if et == EntryType::GnuLongName || et == EntryType::GnuLongLink {
        read_long_entry(data, pos, block, parsed, entries, pax, long_name, long_link)
    } else {
        read_plain_entry(data, pos, block, parsed, entries, pax, long_name, long_link)
    }
}

/// Read a tar archive from its bytes, or `None` where the archive would stop the
/// program (a PAX record whose length field does not fit its place, or content
/// larger than a buffer can hold).
pub fn read_archive_checked(data: &[u8]) -> (r: Option<Result<Vec<TarEntry>, ReaderError>>)
    ensures
        r is None <==> read_outcome(data@) is Abort,
        r matches Some(Ok(v)) ==> read_outcome(data@) == ReadOutcome::Entries(entries_view(v@)),
        r matches Some(Err(e)) ==> read_outcome(data@) == ReadOutcome::Fault(e@),
{
    let mut entries: Vec<TarEntry> = Vec::new();
    let mut pax: Vec<PaxRecord> = Vec::new();
    let mut long_name: Option<String> = None;
    let mut long_link: Option<String> = None;
    let mut pos: usize = 0;
    proof {
        assert(entries_view(entries@) =~= Seq::<EntryView>::empty());
        assert(records_view(pax@) =~= Seq::<(Seq<char>, Seq<char>)>::empty());
        let inner = read_outcome(data@);
        assert(state_view(pos, pax@, long_name, long_link) == ReadState {
            pos: 0,
            pax: seq![],
            long_name: None,
            long_link: None,
        });
        if inner is Entries {
            assert(Seq::<EntryView>::empty() + inner->Entries_0 =~= inner->Entries_0);
        }
    }
    loop
        invariant
            pos <= data@.len(),
            read_outcome(data@) == total_outcome(data@, entries@, pos, pax@, long_name, long_link),
        decreases data@.len() - pos,
    {
        match read_step(data, pos, &mut entries, &mut pax, &mut long_name, &mut long_link) {
            Some(Ok(Some(next))) => {
                pos = next;
            },
            Some(Ok(None)) => {
                return Some(Ok(entries));
            },
            Some(Err(e)) => {
                return Some(Err(e));
            },
            None => {
                return None;
            },
        }
    }
}

/// Read a tar archive from its bytes.
pub fn read_archive_from(data: &[u8]) -> (r: Result<Vec<TarEntry>, ReaderError>)
    requires
        !(read_outcome(data@) is Abort),
    ensures
        r matches Ok(v) ==> read_outcome(data@) == ReadOutcome::Entries(entries_view(v@)),
        r matches Err(e) ==> read_outcome(data@) == ReadOutcome::Fault(e@),
{
    match read_archive_checked(data) {
        Some(r) => r,
        None => Ok(Vec::new()),
    }
}


// ---------------------------------------------------------------------------
// Raw header blocks
// ---------------------------------------------------------------------------

impl View for RawBlock {
    type V = (Seq<u8>, u64, bool);

    open spec fn view(&self) -> (Seq<u8>, u64, bool) {
        (self.block@, self.offset, self.is_header)
    }
}

/// The blocks of a list, by their views.
pub open spec fn raw_blocks_view(v: Seq<RawBlock>) -> Seq<(Seq<u8>, u64, bool)> {
    v.map_values(|b: RawBlock| b@)
}

/// The bytes that the walk over header blocks skips after a header of `size`: the
/// content and its padding.
pub open spec fn skip_len(size: u64) -> nat {
    if size > 0 {
        (size + padding(size as nat)) as nat
    } else {
        0
    }
}

/// The header blocks from `pos` on, each with its offset; `None` where the walk
/// would not finish normally (a size whose skip reaches 2^63 bytes, or takes the
/// position past 2^63 - 1, beyond what a seek can reach). The walk stops at the end
/// of the data, a partial or zero block, or a block that is no header.
pub open spec fn raw_from(data: Seq<u8>, pos: nat) -> Option<Seq<(Seq<u8>, u64, bool)>>
    decreases data.len() - pos,
{
    if pos >= data.len() || data.len() - pos < 512 {
        Some(seq![])
    } else {
        let block = data.subrange(pos as int, (pos + 512) as int);
        if is_zero_block(block) {
            Some(seq![])
        } else {
            match spec_parse_header(block) {
                Err(_) => Some(seq![]),
                Ok(h) => if skip_len(h.size) >= 0x8000_0000_0000_0000 || pos + 512 + skip_len(h.size)
                    > 0x7fff_ffff_ffff_ffff {
                    None
                } else {
                    let next = pos + 512 + skip_len(h.size);
                    if next >= data.len() {
                        Some(seq![(block, pos as u64, true)])
                    } else {
                        match raw_from(data, next) {
                            Some(r) => Some(seq![(block, pos as u64, true)] + r),
                            None => None,
                        }
                    }
                },
            }
        }
    }
}

/// The block of 512 bytes at `pos`.
fn copy_block(data: &[u8], pos: usize) -> (block: [u8; BLOCK_SIZE])
    requires
        pos + 512 <= data@.len(),
    ensures
        block@ == data@.subrange(pos as int, pos + 512),
{
    let mut block: [u8; BLOCK_SIZE] = [0u8; 512];
    for i in 0..512
        invariant
            pos + 512 <= data.len(),
            block@.len() == 512,
            forall|j: int| 0 <= j < i ==> block@[j] == data@[pos + j],
    {
        block[i] = data[pos + i];
    }
    assert(block@ =~= data@.subrange(pos as int, pos + 512));
    block
}

/// Read the raw 512-byte header blocks of an archive (for header inspection), or
/// `None` where the walk would not finish normally.
pub fn read_raw_blocks_checked(data: &[u8]) -> (r: Option<Vec<RawBlock>>)
    ensures
        r matches Some(v) ==> raw_from(data@, 0) == Some(raw_blocks_view(v@)),
        r is None ==> raw_from(data@, 0) is None,
{
    let mut blocks: Vec<RawBlock> = Vec::new();
    let mut pos: usize = 0;
    proof {
        assert(raw_blocks_view(blocks@) =~= Seq::<(Seq<u8>, u64, bool)>::empty());
        if raw_from(data@, 0) is Some {
            assert(Seq::<(Seq<u8>, u64, bool)>::empty() + raw_from(data@, 0)->Some_0 =~= raw_from(
                data@,
                0,
            )->Some_0);
        }
    }
    loop
        invariant
            pos <= data@.len(),
            raw_from(data@, 0) == (match raw_from(data@, pos as nat) {
                Some(r) => Some(raw_blocks_view(blocks@) + r),
                None => None,
            }),
        decreases data@.len() - pos,
    {
        let ghost done = raw_blocks_view(blocks@);
        if pos >= data.len() || data.len() - pos < 512 {
            assert(done + seq![] =~= done);
            return Some(blocks);
        }
        let block = copy_block(data, pos);
        if all_zero_block(&block) {
            assert(done + seq![] =~= done);
            return Some(blocks);
        }
        let h = match TarHeader::parse(&block) {
            Ok(h) => h,
            Err(_) => {
                assert(done + seq![] =~= done);
                return Some(blocks);
            },
        };
        let size = h.size;
        let skip: u64 = if size > 0 {
            if size > 0x7fff_ffff_ffff_ffff {
                return None;
            }
            size + (512 - size % 512) % 512
        } else {
            0
        };
        if skip >= 0x8000_0000_0000_0000 || (pos as u128) + 512 + (skip as u128)
            > 0x7fff_ffff_ffff_ffff {
            return None;
        }
        let ghost item = (block@, pos as u64, true);
        blocks.push(RawBlock { block, offset: pos as u64, is_header: true });
        proof {
            assert(raw_blocks_view(blocks@) =~= done + seq![item]);
        }
        let rest = (data.len() - pos - 512) as u64;
        if skip >= rest {
            assert(done + seq![item] =~= raw_blocks_view(blocks@));
            return Some(blocks);
        }
        proof {
            let inner = raw_from(data@, (pos + 512 + skip) as nat);
            if inner is Some {
                assert(done + (seq![item] + inner->Some_0) =~= done + seq![item] + inner->Some_0);
            }
        }
        pos = pos + 512 + skip as usize;
    }
}

fn all_zero_block(b: &[u8; BLOCK_SIZE]) -> (r: bool)
    ensures
        r == is_zero_block(b@),
{
    for i in 0..512
        invariant
            b@.len() == 512,
            forall|j: int| 0 <= j < i ==> b@[j] == 0,
    {
        if b[i] != 0 {
            return false;
        }
    }
    true
}

/// Read the raw 512-byte header blocks of an archive (for header inspection).
pub fn read_raw_blocks_from(data: &[u8]) -> (r: Vec<RawBlock>)
    requires
        raw_from(data@, 0) is Some,
    ensures
        raw_from(data@, 0) == Some(raw_blocks_view(r@)),
{
    match read_raw_blocks_checked(data) {
        Some(v) => v,
        None => Vec::new(),
    }
}

} // verus!
