use vstd::prelude::*;
use vstd::slice::{slice_subrange, slice_to_vec};
use vstd::utf8::{decode_utf8, valid_utf8};

use crate::error::ExtractError;
use crate::varint::{lemma_7bit_at, read_7bit_length, spec_encode_7bit, spec_read_7bit};

verus! {

/// The `n` bytes at `pos`, and the position after them.
pub open spec fn spec_read_bytes(s: Seq<u8>, pos: nat, n: nat) -> Result<(Seq<u8>, nat), ExtractError> {
    if pos + n <= s.len() {
        Ok((s.subrange(pos as int, (pos + n) as int), pos + n))
    } else {
        Err(ExtractError::Truncated)
    }
}

/// The unsigned value of four bytes, least significant first.
pub open spec fn le_u32(b: Seq<u8>) -> u32 {
    (b[0] + b[1] * 256 + b[2] * 65536 + b[3] * 16777216) as u32
}

/// The two's complement value of four bytes, least significant first.
pub open spec fn le_i32(b: Seq<u8>) -> i32 {
    if le_u32(b) < 0x8000_0000 {
        le_u32(b) as i32
    } else {
        (le_u32(b) - 0x1_0000_0000) as i32
    }
}

pub open spec fn spec_read_u32(s: Seq<u8>, pos: nat) -> Result<(u32, nat), ExtractError> {
    match spec_read_bytes(s, pos, 4) {
        Ok((b, p)) => Ok((le_u32(b), p)),
        Err(e) => Err(e),
    }
}

pub open spec fn spec_read_i32(s: Seq<u8>, pos: nat) -> Result<(i32, nat), ExtractError> {
    match spec_read_bytes(s, pos, 4) {
        Ok((b, p)) => Ok((le_i32(b), p)),
        Err(e) => Err(e),
    }
}

/// A string: a 7-bit length prefix, then that many bytes of UTF-8.
pub open spec fn spec_read_string(s: Seq<u8>, pos: nat) -> Result<(Seq<char>, nat), ExtractError> {
    match spec_read_7bit(s, pos) {
        Err(e) => Err(e),
        Ok((len, p)) => match spec_read_bytes(s, p, len as nat) {
            Err(e) => Err(e),
            Ok((b, q)) => if valid_utf8(b) {
                Ok((decode_utf8(b), q))
            } else {
                Err(ExtractError::InvalidUtf8)
            },
        },
    }
}

/// A string as it is stored: the 7-bit encoded length of its UTF-8 bytes,
/// then the bytes.
pub open spec fn spec_string_bytes(b: Seq<u8>) -> Seq<u8> {
    spec_encode_7bit(b.len()) + b
}

/// The four little-endian bytes of `n`.
pub open spec fn spec_le_bytes(n: nat) -> Seq<u8> {
    seq![(n % 256) as u8, (n / 256 % 256) as u8, (n / 65536 % 256) as u8, (n / 16777216 % 256) as u8]
}

/// Where a stored string lies at `pos`, reading a string there yields the
/// characters that its bytes encode and stops right after them.
pub proof fn lemma_string_at(s: Seq<u8>, pos: nat, b: Seq<u8>)
    requires
        valid_utf8(b),
        b.len() <= u32::MAX,
        pos + spec_string_bytes(b).len() <= s.len(),
        s.subrange(pos as int, (pos + spec_string_bytes(b).len()) as int) == spec_string_bytes(b),
    ensures
        spec_read_string(s, pos) == Ok::<(Seq<char>, nat), ExtractError>(
            (decode_utf8(b), pos + spec_string_bytes(b).len()),
        ),
{
    let e = spec_encode_7bit(b.len());
    let n = b.len() as u32;
    let p = pos as int;
    let el = e.len() as int;
    let bl = b.len() as int;
    let whole = s.subrange(p, p + el + bl);
    assert(s.subrange(p, p + el) =~= whole.subrange(0, el));
    assert(whole.subrange(0, el) =~= e);
    lemma_7bit_at(s, pos, n);
    assert(s.subrange(p + el, p + el + bl) =~= whole.subrange(el, el + bl));
    assert(whole.subrange(el, el + bl) =~= b);
}

/// Reading four little-endian bytes of a non-negative 32-bit length gives it back.
pub proof fn lemma_le_bytes_i32(n: nat)
    requires
        n <= i32::MAX,
    ensures
        le_i32(spec_le_bytes(n)) == n,
        spec_le_bytes(n).len() == 4,
{
    let b = spec_le_bytes(n);
    let q0 = n / 256;
    let q1 = q0 / 256;
    assert(n / 65536 == q1) by {
        vstd::arithmetic::div_mod::lemma_div_denominator(n as int, 256, 256);
    }
    assert(n / 16777216 == q1 / 256) by {
        vstd::arithmetic::div_mod::lemma_div_denominator(n as int, 65536, 256);
    }
    assert(q1 / 256 < 256);
    assert(b[0] + b[1] * 256 + b[2] * 65536 + b[3] * 16777216 == n);
}

/// Copies the `n` bytes at `pos`.
pub fn read_bytes(data: &[u8], pos: usize, n: usize) -> (r: Result<(Vec<u8>, usize), ExtractError>)
    ensures
        match r {
            Ok((v, p)) => spec_read_bytes(data@, pos as nat, n as nat) == Ok::<
                (Seq<u8>, nat),
                ExtractError,
            >((v@, p as nat)),
            Err(e) => spec_read_bytes(data@, pos as nat, n as nat) == Err::<
                (Seq<u8>, nat),
                ExtractError,
            >(e),
        },
{
    if pos > data.len() || data.len() - pos < n {
        return Err(ExtractError::Truncated);
    }
    let v = slice_to_vec(slice_subrange(data, pos, pos + n));
    Ok((v, pos + n))
}

/// Reads a little-endian unsigned 32-bit integer.
pub fn read_u32_le(data: &[u8], pos: usize) -> (r: Result<(u32, usize), ExtractError>)
    ensures
        match r {
            Ok((v, p)) => spec_read_u32(data@, pos as nat) == Ok::<(u32, nat), ExtractError>(
                (v, p as nat),
            ),
            Err(e) => spec_read_u32(data@, pos as nat) == Err::<(u32, nat), ExtractError>(e),
        },
{
    if pos > data.len() || data.len() - pos < 4 {
        return Err(ExtractError::Truncated);
    }
    let v: u32 = data[pos] as u32 + data[pos + 1] as u32 * 256 + data[pos + 2] as u32 * 65536
        + data[pos + 3] as u32 * 16777216;
    proof {
        let b = data@.subrange(pos as int, pos + 4);
        assert(b[0] == data@[pos as int] && b[1] == data@[pos + 1] && b[2] == data@[pos + 2]
            && b[3] == data@[pos + 3]);
    }
    Ok((v, pos + 4))
}

/// Reads a little-endian two's complement 32-bit integer.
pub fn read_i32_le(data: &[u8], pos: usize) -> (r: Result<(i32, usize), ExtractError>)
    ensures
        match r {
            Ok((v, p)) => spec_read_i32(data@, pos as nat) == Ok::<(i32, nat), ExtractError>(
                (v, p as nat),
            ),
            Err(e) => spec_read_i32(data@, pos as nat) == Err::<(i32, nat), ExtractError>(e),
        },
{
    match read_u32_le(data, pos) {
        Err(e) => Err(e),
        Ok((u, p)) => {
            let v: i32 = if u < 0x8000_0000 {
                u as i32
            } else {
                ((u - 0x8000_0000) as i32) - 0x7fff_ffff - 1
            };
            Ok((v, p))
        },
    }
}

/// Relies on `String::from_utf8`: it succeeds exactly when the bytes are valid
/// UTF-8, and the string then holds the characters that they encode.
#[verifier::external_body]
fn string_from_utf8(bytes: Vec<u8>) -> (r: Option<String>)
    ensures
        r is Some <==> valid_utf8(bytes@),
        r matches Some(t) ==> t@ == decode_utf8(bytes@),
{
    String::from_utf8(bytes).ok()
}

/// Reads a string: a 7-bit length prefix followed by that many UTF-8 bytes.
pub fn read_string(data: &[u8], pos: usize) -> (r: Result<(String, usize), ExtractError>)
    ensures
        match r {
            Ok((t, p)) => spec_read_string(data@, pos as nat) == Ok::<
                (Seq<char>, nat),
                ExtractError,
            >((t@, p as nat)),
            Err(e) => spec_read_string(data@, pos as nat) == Err::<(Seq<char>, nat), ExtractError>(
                e,
            ),
        },
{
    let (len, p) = match read_7bit_length(data, pos) {
        Ok(x) => x,
        Err(e) => return Err(e),
    };
    let (bytes, q) = match read_bytes(data, p, len as usize) {
        Ok(x) => x,
        Err(e) => return Err(e),
    };
    match string_from_utf8(bytes) {
        Some(t) => Ok((t, q)),
        None => Err(ExtractError::InvalidUtf8),
    }
}

} // verus!
