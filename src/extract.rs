use vstd::prelude::*;

use crate::container::{
    entries_view, spec_read_entry, tmod_magic, read_entries, read_header, spec_read_entries, spec_read_header, ContainerHeader,
    EntryView, FileEntry, HeaderView,
};
use crate::error::ExtractError;
use crate::fields::{
    le_i32, le_u32, lemma_le_bytes_i32, lemma_string_at, read_bytes, spec_le_bytes,
    spec_read_bytes, spec_read_i32, spec_read_string, spec_read_u32, spec_string_bytes,
};
use crate::varint::spec_encode_7bit;
use vstd::utf8::{decode_utf8, valid_utf8};

verus! {

/// What a raw deflate stream (no zlib or gzip wrapper) inflates to, or `None`
/// where the stream is corrupt or ends early.
pub uninterp spec fn raw_inflate(b: Seq<u8>) -> Option<Seq<u8>>;

/// Relies on `flate2::read::DeflateDecoder` read to its end: it decodes a raw
/// deflate stream from the bytes alone, or fails on a corrupt one.
#[verifier::external_body]
fn inflate_raw(compressed: &[u8]) -> (r: Option<Vec<u8>>)
    ensures
        match r {
            Some(v) => raw_inflate(compressed@) == Some(v@),
            None => raw_inflate(compressed@) is None,
        },
{
    let mut out = Vec::new();
    let mut decoder = flate2::read::DeflateDecoder::new(compressed);
    match std::io::Read::read_to_end(&mut decoder, &mut out) {
        Ok(_) => Some(out),
        Err(_) => None,
    }
}

/// The outcome of inflating a payload, held against its declared length.
pub open spec fn spec_check_inflated(inflated: Option<Seq<u8>>, uncompressed_len: i32) -> Result<
    Seq<u8>,
    ExtractError,
> {
    match inflated {
        None => Err(ExtractError::Decompress),
        Some(d) => if d.len() == uncompressed_len {
            Ok(d)
        } else {
            Err(ExtractError::SizeMismatch)
        },
    }
}

/// A payload region is stored verbatim exactly when both lengths are equal;
/// otherwise it is a raw deflate stream.
pub open spec fn spec_decode_payload(raw: Seq<u8>, e: EntryView) -> Result<Seq<u8>, ExtractError> {
    if e.compressed_len == e.uncompressed_len {
        Ok(raw)
    } else {
        spec_check_inflated(raw_inflate(raw), e.uncompressed_len)
    }
}

/// The file contents of entry `e`, whose payload starts at `pos`, and the
/// position after the payload.
pub open spec fn spec_extract_entry(s: Seq<u8>, pos: nat, e: EntryView) -> Result<
    (Seq<u8>, nat),
    ExtractError,
> {
    if e.compressed_len < 0 {
        Err(ExtractError::NegativeLength)
    } else {
        match spec_read_bytes(s, pos, e.compressed_len as nat) {
            Err(err) => Err(err),
            Ok((raw, p)) => match spec_decode_payload(raw, e) {
                Err(err) => Err(err),
                Ok(d) => Ok((d, p)),
            },
        }
    }
}

/// Accepts inflated bytes only when there are exactly `uncompressed_len` of them.
pub fn check_inflated(inflated: Option<Vec<u8>>, uncompressed_len: i32) -> (r: Result<Vec<u8>, ExtractError>)
    ensures
        match r {
            Ok(v) => spec_check_inflated(
                match inflated {
                    Some(d) => Some(d@),
                    None => None,
                },
                uncompressed_len,
            ) == Ok::<Seq<u8>, ExtractError>(v@),
            Err(e) => spec_check_inflated(
                match inflated {
                    Some(d) => Some(d@),
                    None => None,
                },
                uncompressed_len,
            ) == Err::<Seq<u8>, ExtractError>(e),
        },
{
    match inflated {
        None => Err(ExtractError::Decompress),
        Some(d) => {
            if uncompressed_len >= 0 && d.len() == uncompressed_len as usize {
                Ok(d)
            } else {
                Err(ExtractError::SizeMismatch)
            }
        },
    }
}

/// Turns a payload region into file contents: verbatim when both lengths are
/// equal, inflated otherwise.
pub fn decode_payload(raw: Vec<u8>, entry: &FileEntry) -> (r: Result<Vec<u8>, ExtractError>)
    ensures
        match r {
            Ok(v) => spec_decode_payload(raw@, entry@) == Ok::<Seq<u8>, ExtractError>(v@),
            Err(e) => spec_decode_payload(raw@, entry@) == Err::<Seq<u8>, ExtractError>(e),
        },
{
    if entry.compressed_len == entry.uncompressed_len {
        Ok(raw)
    } else {
        check_inflated(inflate_raw(raw.as_slice()), entry.uncompressed_len)
    }
}

/// Reads the payload of `entry` at `pos` and decodes it.
pub fn extract_entry(data: &[u8], pos: usize, entry: &FileEntry) -> (r: Result<(Vec<u8>, usize), ExtractError>)
    ensures
        match r {
            Ok((v, p)) => spec_extract_entry(data@, pos as nat, entry@) == Ok::<
                (Seq<u8>, nat),
                ExtractError,
            >((v@, p as nat)),
            Err(e) => spec_extract_entry(data@, pos as nat, entry@) == Err::<(Seq<u8>, nat), ExtractError>(
                e,
            ),
        },
{
    if entry.compressed_len < 0 {
        return Err(ExtractError::NegativeLength);
    }
    let (raw, p) = match read_bytes(data, pos, entry.compressed_len as usize) {
        Ok(x) => x,
        Err(e) => return Err(e),
    };
    match decode_payload(raw, entry) {
        Ok(d) => Ok((d, p)),
        Err(e) => Err(e),
    }
}

/// A parsed header and entry table, and where the payloads begin.
pub struct Container {
    pub header: ContainerHeader,
    pub entries: Vec<FileEntry>,
    pub payload_start: usize,
}

/// The header, then exactly `entry_count` table rows.
pub open spec fn spec_read_container(s: Seq<u8>) -> Result<(HeaderView, Seq<EntryView>, nat), ExtractError> {
    match spec_read_header(s) {
        Err(e) => Err(e),
        Ok((h, p)) => match spec_read_entries(s, p, h.entry_count as nat) {
            Err(e) => Err(e),
            Ok((es, q)) => Ok((h, es, q)),
        },
    }
}

/// The files that the entries `es` produce, in table order, their payloads
/// lying back to back from `pos` on; and the position after the last one.
pub open spec fn spec_extract_payloads(s: Seq<u8>, pos: nat, es: Seq<EntryView>) -> Result<
    (Seq<(Seq<char>, Seq<u8>)>, nat),
    ExtractError,
>
    decreases es.len(),
{
    if es.len() == 0 {
        Ok((Seq::empty(), pos))
    } else {
        match spec_extract_payloads(s, pos, es.drop_last()) {
            Err(e) => Err(e),
            Ok((files, p)) => match spec_extract_entry(s, p, es.last()) {
                Err(e) => Err(e),
                Ok((d, q)) => Ok((files.push((es.last().name, d)), q)),
            },
        }
    }
}

/// Every file of the container, as (name, contents), in table order.
pub open spec fn spec_extract_all(s: Seq<u8>) -> Result<Seq<(Seq<char>, Seq<u8>)>, ExtractError> {
    match spec_read_container(s) {
        Err(e) => Err(e),
        Ok((h, es, p)) => match spec_extract_payloads(s, p, es) {
            Err(e) => Err(e),
            Ok((files, q)) => Ok(files),
        },
    }
}

/// The output tree that writing `files` in order leaves: each name holds the
/// contents written to it last.
pub open spec fn tree_after(files: Seq<(Seq<char>, Seq<u8>)>) -> Map<Seq<char>, Seq<u8>>
    decreases files.len(),
{
    if files.len() == 0 {
        Map::empty()
    } else {
        tree_after(files.drop_last()).insert(files.last().0, files.last().1)
    }
}

/// One extracted file: its relative path and its contents.
pub struct ExtractedFile {
    pub name: String,
    pub contents: Vec<u8>,
}

impl View for ExtractedFile {
    type V = (Seq<char>, Seq<u8>);

    open spec fn view(&self) -> (Seq<char>, Seq<u8>) {
        (self.name@, self.contents@)
    }
}

pub open spec fn files_view(v: Seq<ExtractedFile>) -> Seq<(Seq<char>, Seq<u8>)> {
    v.map_values(|f: ExtractedFile| f@)
}

/// Reads the header and the whole entry table; no payload byte is read.
pub fn read_container(data: &[u8]) -> (r: Result<Container, ExtractError>)
    ensures
        match r {
            Ok(c) => spec_read_container(data@) == Ok::<
                (HeaderView, Seq<EntryView>, nat),
                ExtractError,
            >((c.header@, entries_view(c.entries@), c.payload_start as nat)),
            Err(e) => spec_read_container(data@) == Err::<
                (HeaderView, Seq<EntryView>, nat),
                ExtractError,
            >(e),
        },
{
    let (header, p) = match read_header(data) {
        Ok(x) => x,
        Err(e) => return Err(e),
    };
    let (entries, q) = match read_entries(data, p, header.entry_count as u32) {
        Ok(x) => x,
        Err(e) => return Err(e),
    };
    Ok(Container { header, entries, payload_start: q })
}

proof fn lemma_payloads_error_persists(s: Seq<u8>, pos: nat, es: Seq<EntryView>, k: nat, n: nat)
    requires
        k <= n <= es.len(),
        spec_extract_payloads(s, pos, es.take(k as int)) is Err,
    ensures
        spec_extract_payloads(s, pos, es.take(n as int)) == spec_extract_payloads(
            s,
            pos,
            es.take(k as int),
        ),
    decreases n - k,
{
    if k < n {
        lemma_payloads_error_persists(s, pos, es, k, (n - 1) as nat);
        assert(es.take(n as int).drop_last() =~= es.take(n - 1));
    }
}

/// Extracts every entry of the container in table order. Repeated names are
/// kept, each with its own contents.
pub fn extract_all(data: &[u8]) -> (r: Result<Vec<ExtractedFile>, ExtractError>)
    ensures
        match r {
            Ok(files) => spec_extract_all(data@) == Ok::<Seq<(Seq<char>, Seq<u8>)>, ExtractError>(
                files_view(files@),
            ),
            Err(e) => spec_extract_all(data@) == Err::<Seq<(Seq<char>, Seq<u8>)>, ExtractError>(e),
        },
{
    let c = match read_container(data) {
        Ok(c) => c,
        Err(e) => return Err(e),
    };
    let ghost es = entries_view(c.entries@);
    let mut files: Vec<ExtractedFile> = Vec::new();
    let mut p: usize = c.payload_start;
    let mut i: usize = 0;
    assert(es.take(0) =~= Seq::<EntryView>::empty());
    assert(files_view(files@) =~= Seq::<(Seq<char>, Seq<u8>)>::empty());
    while i < c.entries.len()
        invariant
            i <= c.entries.len(),
            es == entries_view(c.entries@),
            spec_read_container(data@) == Ok::<(HeaderView, Seq<EntryView>, nat), ExtractError>(
                (c.header@, es, c.payload_start as nat),
            ),
            spec_extract_payloads(data@, c.payload_start as nat, es.take(i as int)) == Ok::<
                (Seq<(Seq<char>, Seq<u8>)>, nat),
                ExtractError,
            >((files_view(files@), p as nat)),
        decreases c.entries.len() - i,
    {
        let entry = &c.entries[i];
        proof {
            assert(es.take(i + 1).drop_last() =~= es.take(i as int));
            assert(es.take(i + 1).last() == entry@);
        }
        let (d, q) = match extract_entry(data, p, entry) {
            Ok(x) => x,
            Err(e) => {
                proof {
                    lemma_payloads_error_persists(
                        data@,
                        c.payload_start as nat,
                        es,
                        (i + 1) as nat,
                        es.len(),
                    );
                    assert(es.take(es.len() as int) =~= es);
                }
                return Err(e);
            },
        };
        let f = ExtractedFile { name: entry.name.clone(), contents: d };
        proof {
            assert(files_view(files@.push(f)) =~= files_view(files@).push(f@));
        }
        files.push(f);
        p = q;
        i = i + 1;
    }
    assert(es.take(i as int) =~= es);
    Ok(files)
}

/// A magic field other than `TMOD` is refused before any later field is
/// read: whatever follows it, reading fails with `BadMagic`.
pub proof fn lemma_bad_magic_rejected(s: Seq<u8>)
    requires
        s.len() >= 4,
        s.subrange(0, 4) != tmod_magic(),
    ensures
        spec_read_header(s) == Err::<(HeaderView, nat), ExtractError>(ExtractError::BadMagic),
        spec_extract_all(s) == Err::<Seq<(Seq<char>, Seq<u8>)>, ExtractError>(
            ExtractError::BadMagic,
        ),
{
}

/// An entry whose two lengths are equal is copied verbatim: its contents are
/// exactly the next `compressed_len` bytes, and no inflating takes place.
pub proof fn lemma_stored_entry_verbatim(s: Seq<u8>, pos: nat, e: EntryView)
    requires
        e.compressed_len == e.uncompressed_len,
        e.compressed_len >= 0,
        pos + e.compressed_len <= s.len(),
    ensures
        spec_extract_entry(s, pos, e) == Ok::<(Seq<u8>, nat), ExtractError>(
            (
                s.subrange(pos as int, pos + e.compressed_len),
                pos + e.compressed_len as nat,
            ),
        ),
{
}

/// An entry whose lengths differ yields what its payload region inflates to
/// when that has exactly `uncompressed_len` bytes; any other length fails with
/// `SizeMismatch`, never a truncated or padded file.
pub proof fn lemma_compressed_entry(s: Seq<u8>, pos: nat, e: EntryView, d: Seq<u8>)
    requires
        e.compressed_len != e.uncompressed_len,
        e.compressed_len >= 0,
        pos + e.compressed_len <= s.len(),
        raw_inflate(s.subrange(pos as int, pos + e.compressed_len)) == Some(d),
    ensures
        d.len() == e.uncompressed_len ==> spec_extract_entry(s, pos, e) == Ok::<
            (Seq<u8>, nat),
            ExtractError,
        >((d, pos + e.compressed_len as nat)),
        d.len() != e.uncompressed_len ==> spec_extract_entry(s, pos, e) == Err::<
            (Seq<u8>, nat),
            ExtractError,
        >(ExtractError::SizeMismatch),
{
}

/// Entries that share a name are all written, in table order, without error:
/// the tree left afterwards holds the contents of the last of them.
pub proof fn lemma_last_write_wins(files: Seq<(Seq<char>, Seq<u8>)>, i: int)
    requires
        0 <= i < files.len(),
        forall|j: int| i < j < files.len() ==> files[j].0 != files[i].0,
    ensures
        tree_after(files).contains_key(files[i].0),
        tree_after(files)[files[i].0] == files[i].1,
    decreases files.len(),
{
    if i < files.len() - 1 {
        lemma_last_write_wins(files.drop_last(), i);
    }
}

/// The smallest header: empty strings, zero hash, signature and data length,
/// and an entry count of one.
pub open spec fn minimal_header() -> Seq<u8> {
    tmod_magic() + Seq::new(287, |i: int| if i == 283 { 1u8 } else { 0u8 })
}

/// A container with a minimal header and one stored entry: its name's UTF-8
/// bytes, both lengths equal to the payload's, and the payload itself.
pub open spec fn single_entry_container(name: Seq<u8>, payload: Seq<u8>) -> Seq<u8> {
    minimal_header() + spec_string_bytes(name) + spec_le_bytes(payload.len()) + spec_le_bytes(
        payload.len(),
    ) + payload
}

proof fn lemma_empty_string_at(s: Seq<u8>, pos: nat)
    requires
        pos < s.len(),
        s[pos as int] == 0,
    ensures
        spec_read_string(s, pos) == Ok::<(Seq<char>, nat), ExtractError>(
            (Seq::<char>::empty(), pos + 1),
        ),
{
    let empty = Seq::<u8>::empty();
    assert(spec_encode_7bit(0) == seq![0u8]);
    assert(spec_string_bytes(empty) =~= seq![0u8]);
    assert(s.subrange(pos as int, pos + 1 as int) =~= seq![0u8]);
    assert(valid_utf8(empty));
    assert(decode_utf8(empty) =~= Seq::<char>::empty());
    lemma_string_at(s, pos, empty);
}

/// What the minimal header reads as.
pub open spec fn minimal_header_view() -> HeaderView {
    HeaderView {
        format_version: Seq::empty(),
        hash: Seq::new(20, |i: int| 0u8),
        signature: Seq::new(256, |i: int| 0u8),
        data_len: 0,
        name: Seq::empty(),
        version: Seq::empty(),
        entry_count: 1,
    }
}

proof fn lemma_minimal_header_read(s: Seq<u8>)
    requires
        291 <= s.len(),
        s.subrange(0, 291) == minimal_header(),
    ensures
        spec_read_header(s) == Ok::<(HeaderView, nat), ExtractError>((minimal_header_view(), 291nat)),
{
    let h = minimal_header();
    assert(h.len() == 291);
    assert forall|i: int| 0 <= i < 291 implies s[i] == h[i] by {
        assert(s.subrange(0, 291)[i] == s[i]);
    }
    assert(s.subrange(0, 4) =~= tmod_magic());
    lemma_empty_string_at(s, 4);
    assert(s.subrange(5, 25) =~= minimal_header_view().hash);
    assert(s.subrange(25, 281) =~= minimal_header_view().signature);
    assert(s.subrange(281, 285) =~= seq![0u8, 0u8, 0u8, 0u8]);
    assert(le_u32(seq![0u8, 0u8, 0u8, 0u8]) == 0);
    assert(spec_read_u32(s, 281) == Ok::<(u32, nat), ExtractError>((0u32, 285nat)));
    lemma_empty_string_at(s, 285);
    lemma_empty_string_at(s, 286);
    assert(s.subrange(287, 291) =~= seq![1u8, 0u8, 0u8, 0u8]);
    assert(le_u32(seq![1u8, 0u8, 0u8, 0u8]) == 1);
    assert(le_i32(seq![1u8, 0u8, 0u8, 0u8]) == 1);
    assert(spec_read_i32(s, 287) == Ok::<(i32, nat), ExtractError>((1i32, 291nat)));
}

/// The single table row of `single_entry_container`, and where its payload starts.
proof fn lemma_single_entry_row(name: Seq<u8>, payload: Seq<u8>)
    requires
        valid_utf8(name),
        name.len() <= u32::MAX,
        payload.len() <= i32::MAX,
    ensures
        spec_read_entry(single_entry_container(name, payload), 291) == Ok::<
            (EntryView, nat),
            ExtractError,
        >(
            (
                EntryView {
                    name: decode_utf8(name),
                    uncompressed_len: payload.len() as i32,
                    compressed_len: payload.len() as i32,
                },
                299 + spec_string_bytes(name).len(),
            ),
        ),
{
    let s = single_entry_container(name, payload);
    let sb = spec_string_bytes(name);
    let lb = spec_le_bytes(payload.len());
    let k = sb.len() as int;
    assert(minimal_header().len() == 291);
    assert(s.subrange(291, 291 + k) =~= sb);
    lemma_string_at(s, 291, name);
    lemma_le_bytes_i32(payload.len());
    assert(s.subrange(291 + k, 295 + k) =~= lb);
    assert(s.subrange(295 + k, 299 + k) =~= lb);
}

/// The header and table of `single_entry_container`, and where its payload starts.
proof fn lemma_single_entry_table(name: Seq<u8>, payload: Seq<u8>)
    requires
        valid_utf8(name),
        name.len() <= u32::MAX,
        payload.len() <= i32::MAX,
    ensures
        spec_read_container(single_entry_container(name, payload)) == Ok::<
            (HeaderView, Seq<EntryView>, nat),
            ExtractError,
        >(
            (
                minimal_header_view(),
                seq![
                    EntryView {
                        name: decode_utf8(name),
                        uncompressed_len: payload.len() as i32,
                        compressed_len: payload.len() as i32,
                    },
                ],
                299 + spec_string_bytes(name).len(),
            ),
        ),
{
    let s = single_entry_container(name, payload);
    let k = spec_string_bytes(name).len() as int;
    let len = payload.len() as i32;
    let ev = EntryView { name: decode_utf8(name), uncompressed_len: len, compressed_len: len };
    assert(minimal_header().len() == 291);
    assert(s.subrange(0, 291) =~= minimal_header());
    lemma_minimal_header_read(s);
    lemma_single_entry_row(name, payload);
    assert(spec_read_entries(s, 291, 0) == Ok::<(Seq<EntryView>, nat), ExtractError>(
        (Seq::empty(), 291nat),
    ));
    assert(Seq::<EntryView>::empty().push(ev) =~= seq![ev]);
}

/// Extracting a container whose one entry is stored (both lengths equal)
/// yields exactly one file: the entry's name, holding the payload unchanged.
pub proof fn lemma_single_stored_entry(name: Seq<u8>, payload: Seq<u8>)
    requires
        valid_utf8(name),
        name.len() <= u32::MAX,
        payload.len() <= i32::MAX,
    ensures
        spec_extract_all(single_entry_container(name, payload)) == Ok::<
            Seq<(Seq<char>, Seq<u8>)>,
            ExtractError,
        >(seq![(decode_utf8(name), payload)]),
{
    let s = single_entry_container(name, payload);
    let k = spec_string_bytes(name).len() as int;
    let len = payload.len() as i32;
    let ev = EntryView { name: decode_utf8(name), uncompressed_len: len, compressed_len: len };
    let files = seq![(decode_utf8(name), payload)];
    lemma_single_entry_table(name, payload);
    lemma_le_bytes_i32(payload.len());
    assert(minimal_header().len() == 291);
    assert(s.len() == 299 + k + payload.len());
    assert(s.subrange(299 + k, 299 + k + payload.len()) =~= payload);
    assert(spec_extract_entry(s, (299 + k) as nat, ev) == Ok::<(Seq<u8>, nat), ExtractError>(
        (payload, s.len()),
    ));
    assert(seq![ev].drop_last() =~= Seq::<EntryView>::empty());
    assert(seq![ev].last() == ev);
    assert(spec_extract_payloads(s, (299 + k) as nat, Seq::<EntryView>::empty()) == Ok::<
        (Seq<(Seq<char>, Seq<u8>)>, nat),
        ExtractError,
    >((Seq::empty(), (299 + k) as nat)));
    assert(Seq::<(Seq<char>, Seq<u8>)>::empty().push((ev.name, payload)) =~= files);
    assert(spec_extract_payloads(s, (299 + k) as nat, seq![ev]) == Ok::<
        (Seq<(Seq<char>, Seq<u8>)>, nat),
        ExtractError,
    >((files, s.len())));
}

} // verus!
