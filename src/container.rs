use vstd::prelude::*;

use crate::error::ExtractError;
use crate::fields::{
    read_bytes, read_i32_le, read_string, read_u32_le, spec_read_bytes, spec_read_i32,
    spec_read_string, spec_read_u32,
};

verus! {

/// Bytes of the content hash in the header.
pub const HASH_LEN: usize = 20;

/// Bytes of the signature in the header.
pub const SIGNATURE_LEN: usize = 256;

/// The marker that opens every container: `TMOD` in ASCII.
pub open spec fn tmod_magic() -> Seq<u8> {
    seq![0x54u8, 0x4Du8, 0x4Fu8, 0x44u8]
}

/// The metadata at the front of a container.
pub struct ContainerHeader {
    pub format_version: String,
    pub hash: Vec<u8>,
    pub signature: Vec<u8>,
    pub data_len: u32,
    pub name: String,
    pub version: String,
    pub entry_count: i32,
}

pub struct HeaderView {
    pub format_version: Seq<char>,
    pub hash: Seq<u8>,
    pub signature: Seq<u8>,
    pub data_len: u32,
    pub name: Seq<char>,
    pub version: Seq<char>,
    pub entry_count: i32,
}

impl View for ContainerHeader {
    type V = HeaderView;

    open spec fn view(&self) -> HeaderView {
        HeaderView {
            format_version: self.format_version@,
            hash: self.hash@,
            signature: self.signature@,
            data_len: self.data_len,
            name: self.name@,
            version: self.version@,
            entry_count: self.entry_count,
        }
    }
}

/// The lowercase hexadecimal digit for `d` in 0..16.
pub open spec fn hex_digit(d: int) -> char {
    if d < 10 {
        (48 + d) as char
    } else {
        (87 + d) as char
    }
}

/// Two lowercase hexadecimal digits per byte, high nibble first.
pub open spec fn spec_hex(b: Seq<u8>) -> Seq<char> {
    Seq::new(
        2 * b.len(),
        |i: int|
            if i % 2 == 0 {
                hex_digit(b[i / 2] as int / 16)
            } else {
                hex_digit(b[i / 2] as int % 16)
            },
    )
}

/// Relies on `hex::encode`: two lowercase hexadecimal digits for each byte,
/// high nibble first, in the order of the bytes.
#[verifier::external_body]
fn hex_lower(b: &[u8]) -> (r: String)
    ensures
        r@ == spec_hex(b@),
{
    hex::encode(b)
}

impl ContainerHeader {
    /// The content hash as lowercase hexadecimal text.
    pub fn hash_hex(&self) -> (r: String)
        ensures
            r@ == spec_hex(self.hash@),
    {
        hex_lower(self.hash.as_slice())
    }

    /// The signature as lowercase hexadecimal text.
    pub fn signature_hex(&self) -> (r: String)
        ensures
            r@ == spec_hex(self.signature@),
    {
        hex_lower(self.signature.as_slice())
    }
}

/// One row of the entry table.
pub struct FileEntry {
    pub name: String,
    pub uncompressed_len: i32,
    pub compressed_len: i32,
}

pub struct EntryView {
    pub name: Seq<char>,
    pub uncompressed_len: i32,
    pub compressed_len: i32,
}

impl View for FileEntry {
    type V = EntryView;

    open spec fn view(&self) -> EntryView {
        EntryView {
            name: self.name@,
            uncompressed_len: self.uncompressed_len,
            compressed_len: self.compressed_len,
        }
    }
}

pub open spec fn entries_view(v: Seq<FileEntry>) -> Seq<EntryView> {
    v.map_values(|e: FileEntry| e@)
}

/// The header fields in their fixed order; the magic marker is checked before
/// anything after it is read, and a negative entry count is refused.
pub open spec fn spec_read_header(s: Seq<u8>) -> Result<(HeaderView, nat), ExtractError> {
    match spec_read_bytes(s, 0, 4) {
        Err(e) => Err(e),
        Ok((magic, p0)) => if magic != tmod_magic() {
            Err(ExtractError::BadMagic)
        } else {
            match spec_read_string(s, p0) {
                Err(e) => Err(e),
                Ok((format_version, p1)) => match spec_read_bytes(s, p1, HASH_LEN as nat) {
                    Err(e) => Err(e),
                    Ok((hash, p2)) => match spec_read_bytes(s, p2, SIGNATURE_LEN as nat) {
                        Err(e) => Err(e),
                        Ok((signature, p3)) => match spec_read_u32(s, p3) {
                            Err(e) => Err(e),
                            Ok((data_len, p4)) => match spec_read_string(s, p4) {
                                Err(e) => Err(e),
                                Ok((name, p5)) => match spec_read_string(s, p5) {
                                    Err(e) => Err(e),
                                    Ok((version, p6)) => match spec_read_i32(s, p6) {
                                        Err(e) => Err(e),
                                        Ok((entry_count, p7)) => if entry_count < 0 {
                                            Err(ExtractError::NegativeEntryCount)
                                        } else {
                                            Ok(
                                                (
                                                    HeaderView {
                                                        format_version,
                                                        hash,
                                                        signature,
                                                        data_len,
                                                        name,
                                                        version,
                                                        entry_count,
                                                    },
                                                    p7,
                                                ),
                                            )
                                        },
                                    },
                                },
                            },
                        },
                    },
                },
            }
        },
    }
}

/// One table row: name, uncompressed length, compressed length.
pub open spec fn spec_read_entry(s: Seq<u8>, pos: nat) -> Result<(EntryView, nat), ExtractError> {
    match spec_read_string(s, pos) {
        Err(e) => Err(e),
        Ok((name, p1)) => match spec_read_i32(s, p1) {
            Err(e) => Err(e),
            Ok((uncompressed_len, p2)) => match spec_read_i32(s, p2) {
                Err(e) => Err(e),
                Ok((compressed_len, p3)) => Ok(
                    (EntryView { name, uncompressed_len, compressed_len }, p3),
                ),
            },
        },
    }
}

/// The first `n` table rows from `pos` on, in order.
pub open spec fn spec_read_entries(s: Seq<u8>, pos: nat, n: nat) -> Result<
    (Seq<EntryView>, nat),
    ExtractError,
>
    decreases n,
{
    if n == 0 {
        Ok((Seq::empty(), pos))
    } else {
        match spec_read_entries(s, pos, (n - 1) as nat) {
            Err(e) => Err(e),
            Ok((es, p)) => match spec_read_entry(s, p) {
                Err(e) => Err(e),
                Ok((e, q)) => Ok((es.push(e), q)),
            },
        }
    }
}

/// Once a table row fails to read, every longer table fails with that error.
proof fn lemma_entries_error_persists(s: Seq<u8>, pos: nat, k: nat, n: nat)
    requires
        k <= n,
        spec_read_entries(s, pos, k) is Err,
    ensures
        spec_read_entries(s, pos, n) == spec_read_entries(s, pos, k),
    decreases n - k,
{
    if k < n {
        lemma_entries_error_persists(s, pos, k, (n - 1) as nat);
    }
}

/// Reads and checks the header at the start of `data`.
pub fn read_header(data: &[u8]) -> (r: Result<(ContainerHeader, usize), ExtractError>)
    ensures
        match r {
            Ok((h, p)) => spec_read_header(data@) == Ok::<(HeaderView, nat), ExtractError>(
                (h@, p as nat),
            ),
            Err(e) => spec_read_header(data@) == Err::<(HeaderView, nat), ExtractError>(e),
        },
{
    let (magic, p0) = match read_bytes(data, 0, 4) {
        Ok(x) => x,
        Err(e) => return Err(e),
    };
    if !(magic[0] == 0x54u8 && magic[1] == 0x4Du8 && magic[2] == 0x4Fu8 && magic[3] == 0x44u8) {
        proof {
            assert(magic@ != tmod_magic()) by {
                if magic@ == tmod_magic() {
                    assert(magic@[0] == tmod_magic()[0]);
                    assert(magic@[1] == tmod_magic()[1]);
                    assert(magic@[2] == tmod_magic()[2]);
                    assert(magic@[3] == tmod_magic()[3]);
                }
            }
        }
        return Err(ExtractError::BadMagic);
    }
    assert(magic@ =~= tmod_magic());
    let (format_version, p1) = match read_string(data, p0) {
        Ok(x) => x,
        Err(e) => return Err(e),
    };
    let (hash, p2) = match read_bytes(data, p1, HASH_LEN) {
        Ok(x) => x,
        Err(e) => return Err(e),
    };
    let (signature, p3) = match read_bytes(data, p2, SIGNATURE_LEN) {
        Ok(x) => x,
        Err(e) => return Err(e),
    };
    let (data_len, p4) = match read_u32_le(data, p3) {
        Ok(x) => x,
        Err(e) => return Err(e),
    };
    let (name, p5) = match read_string(data, p4) {
        Ok(x) => x,
        Err(e) => return Err(e),
    };
    let (version, p6) = match read_string(data, p5) {
        Ok(x) => x,
        Err(e) => return Err(e),
    };
    let (entry_count, p7) = match read_i32_le(data, p6) {
        Ok(x) => x,
        Err(e) => return Err(e),
    };
    if entry_count < 0 {
        return Err(ExtractError::NegativeEntryCount);
    }
    let h = ContainerHeader { format_version, hash, signature, data_len, name, version, entry_count };
    Ok((h, p7))
}

/// Reads one row of the entry table at `pos`.
pub fn read_entry(data: &[u8], pos: usize) -> (r: Result<(FileEntry, usize), ExtractError>)
    ensures
        match r {
            Ok((e, p)) => spec_read_entry(data@, pos as nat) == Ok::<(EntryView, nat), ExtractError>(
                (e@, p as nat),
            ),
            Err(e) => spec_read_entry(data@, pos as nat) == Err::<(EntryView, nat), ExtractError>(e),
        },
{
    let (name, p1) = match read_string(data, pos) {
        Ok(x) => x,
        Err(e) => return Err(e),
    };
    let (uncompressed_len, p2) = match read_i32_le(data, p1) {
        Ok(x) => x,
        Err(e) => return Err(e),
    };
    let (compressed_len, p3) = match read_i32_le(data, p2) {
        Ok(x) => x,
        Err(e) => return Err(e),
    };
    Ok((FileEntry { name, uncompressed_len, compressed_len }, p3))
}

/// Reads `count` rows of the entry table from `pos` on, keeping their order
/// and any repeated names.
pub fn read_entries(data: &[u8], pos: usize, count: u32) -> (r: Result<(Vec<FileEntry>, usize), ExtractError>)
    ensures
        match r {
            Ok((es, p)) => spec_read_entries(data@, pos as nat, count as nat) == Ok::<
                (Seq<EntryView>, nat),
                ExtractError,
            >((entries_view(es@), p as nat)),
            Err(e) => spec_read_entries(data@, pos as nat, count as nat) == Err::<
                (Seq<EntryView>, nat),
                ExtractError,
            >(e),
        },
{
    let mut entries: Vec<FileEntry> = Vec::new();
    let mut p: usize = pos;
    let mut i: u32 = 0;
    assert(entries_view(entries@) =~= Seq::<EntryView>::empty());
    while i < count
        invariant
            i <= count,
            spec_read_entries(data@, pos as nat, i as nat) == Ok::<(Seq<EntryView>, nat), ExtractError>(
                (entries_view(entries@), p as nat),
            ),
        decreases count - i,
    {
        let (e, q) = match read_entry(data, p) {
            Ok(x) => x,
            Err(err) => {
                proof {
                    lemma_entries_error_persists(data@, pos as nat, (i + 1) as nat, count as nat);
                }
                return Err(err);
            },
        };
        proof {
            assert(entries_view(entries@.push(e)) =~= entries_view(entries@).push(e@));
        }
        entries.push(e);
        p = q;
        i = i + 1;
    }
    Ok((entries, p))
}

} // verus!
