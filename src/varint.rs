use vstd::prelude::*;

use crate::error::ExtractError;

verus! {

/// The most 7-bit groups a length prefix may have: enough for 32 bits.
pub const MAX_GROUPS: usize = 5;

pub open spec fn pow128(k: nat) -> nat
    decreases k,
{
    if k == 0 {
        1
    } else {
        128 * pow128((k - 1) as nat)
    }
}

/// The value carried by the low 7 bits of the `k` bytes starting at `pos`,
/// least significant group first.
pub open spec fn group_sum(s: Seq<u8>, pos: nat, k: nat) -> nat
    decreases k,
{
    if k == 0 {
        0
    } else {
        group_sum(s, pos, (k - 1) as nat) + (s[pos + k - 1] % 128) as nat * pow128((k - 1) as nat)
    }
}

/// Decoding a length prefix from group `i` on, the groups before `i` having
/// their continuation bit set: the first byte below 0x80 ends the prefix.
pub open spec fn varint_from(s: Seq<u8>, pos: nat, i: nat) -> Result<(u32, nat), ExtractError>
    decreases MAX_GROUPS - i,
{
    if i >= MAX_GROUPS {
        Err(ExtractError::LengthOverflow)
    } else if pos + i >= s.len() {
        Err(ExtractError::Truncated)
    } else if s[(pos + i) as int] < 128 {
        if group_sum(s, pos, i + 1) <= u32::MAX {
            Ok((group_sum(s, pos, i + 1) as u32, pos + i + 1))
        } else {
            Err(ExtractError::LengthOverflow)
        }
    } else {
        varint_from(s, pos, i + 1)
    }
}

/// The length prefix at `pos`: its value and the position just after it.
pub open spec fn spec_read_7bit(s: Seq<u8>, pos: nat) -> Result<(u32, nat), ExtractError> {
    varint_from(s, pos, 0)
}

/// The 7-bit group encoding of `n`: continuation bit on every group but the last.
pub open spec fn spec_encode_7bit(n: nat) -> Seq<u8>
    decreases n,
{
    if n < 128 {
        seq![n as u8]
    } else {
        seq![(n % 128 + 128) as u8] + spec_encode_7bit(n / 128)
    }
}

proof fn lemma_group_sum_bound(s: Seq<u8>, pos: nat, k: nat)
    ensures
        group_sum(s, pos, k) < pow128(k),
    decreases k,
{
    if k > 0 {
        let k1 = (k - 1) as nat;
        lemma_group_sum_bound(s, pos, k1);
        let d = (s[pos + k - 1] % 128) as nat;
        let p = pow128(k1);
        assert(d * p <= 127 * p) by (nonlinear_arith)
            requires
                d <= 127,
        ;
    }
}

/// Decodes the 7-bit grouped length prefix that starts at `pos`.
pub fn read_7bit_length(data: &[u8], pos: usize) -> (r: Result<(u32, usize), ExtractError>)
    ensures
        match r {
            Ok((v, p)) => spec_read_7bit(data@, pos as nat) == Ok::<(u32, nat), ExtractError>(
                (v, p as nat),
            ),
            Err(e) => spec_read_7bit(data@, pos as nat) == Err::<(u32, nat), ExtractError>(e),
        },
{
    let mut acc: u64 = 0;
    let mut mult: u64 = 1;
    let mut i: usize = 0;
    while i < MAX_GROUPS
        invariant
            i <= MAX_GROUPS,
            acc == group_sum(data@, pos as nat, i as nat),
            mult == pow128(i as nat),
            varint_from(data@, pos as nat, 0) == varint_from(data@, pos as nat, i as nat),
        decreases MAX_GROUPS - i,
    {
        if pos >= data.len() || data.len() - pos <= i {
            return Err(ExtractError::Truncated);
        }
        let byte = data[pos + i];
        proof {
            lemma_group_sum_bound(data@, pos as nat, i as nat);
            lemma_group_sum_bound(data@, pos as nat, (i + 1) as nat);
            lemma_pow128_values();
        }
        assert(mult <= 268435456) by {
            assert(i <= 4);
            if i < 4 {
                lemma_pow128_mono(i as nat, 4);
            }
        }
        acc = acc + (byte % 128) as u64 * mult;
        if byte < 128 {
            if acc <= u32::MAX as u64 {
                return Ok((acc as u32, pos + i + 1));
            } else {
                return Err(ExtractError::LengthOverflow);
            }
        }
        mult = mult * 128;
        i = i + 1;
    }
    Err(ExtractError::LengthOverflow)
}

/// Encodes `n` as a 7-bit grouped length prefix, least significant group first.
pub fn encode_7bit_length(n: u32) -> (r: Vec<u8>)
    ensures
        r@ == spec_encode_7bit(n as nat),
{
    let mut out: Vec<u8> = Vec::new();
    let mut v: u32 = n;
    while v >= 128
        invariant
            out@ + spec_encode_7bit(v as nat) == spec_encode_7bit(n as nat),
        decreases v,
    {
        let group: u8 = (v % 128 + 128) as u8;
        proof {
            assert(spec_encode_7bit(v as nat) == seq![group] + spec_encode_7bit((v / 128) as nat));
            assert(out@.push(group) + spec_encode_7bit((v / 128) as nat) =~= out@ + spec_encode_7bit(
                v as nat,
            ));
        }
        out.push(group);
        v = v / 128;
    }
    proof {
        assert(out@.push(v as u8) =~= out@ + spec_encode_7bit(v as nat));
    }
    out.push(v as u8);
    out
}

proof fn lemma_encode_len(n: nat, k: nat)
    requires
        1 <= k,
        n < pow128(k),
    ensures
        1 <= spec_encode_7bit(n).len() <= k,
    decreases n,
{
    if n >= 128 {
        assert(k >= 2) by {
            if k == 1 {
                reveal_with_fuel(pow128, 2);
            }
        }
        assert(n / 128 < pow128((k - 1) as nat)) by {
            assert(pow128(k) == 128 * pow128((k - 1) as nat));
        }
        lemma_encode_len(n / 128, (k - 1) as nat);
    }
}

proof fn lemma_decode_encoded(s: Seq<u8>, pos: nat, i: nat, n: nat)
    requires
        pos + i + spec_encode_7bit(n).len() <= s.len(),
        s.subrange((pos + i) as int, (pos + i + spec_encode_7bit(n).len()) as int)
            == spec_encode_7bit(n),
        i + spec_encode_7bit(n).len() <= MAX_GROUPS,
        group_sum(s, pos, i) + n * pow128(i) <= u32::MAX,
    ensures
        varint_from(s, pos, i) == Ok::<(u32, nat), ExtractError>(
            (
                (group_sum(s, pos, i) + n * pow128(i)) as u32,
                pos + i + spec_encode_7bit(n).len(),
            ),
        ),
    decreases n,
{
    let e = spec_encode_7bit(n);
    assert(s[(pos + i) as int] == e[0]);
    let p = pow128(i);
    if n < 128 {
        assert(group_sum(s, pos, i + 1) == group_sum(s, pos, i) + n * p);
    } else {
        let rest = spec_encode_7bit(n / 128);
        assert(e == seq![(n % 128 + 128) as u8] + rest);
        assert(s.subrange((pos + i + 1) as int, (pos + i + 1 + rest.len()) as int) =~= rest) by {
            assert forall|j: int| 0 <= j < rest.len() implies s[pos + i + 1 + j] == rest[j] by {
                assert(s[pos + i + 1 + j] == e[1 + j]);
            }
        }
        assert(group_sum(s, pos, i + 1) == group_sum(s, pos, i) + (n % 128) * p);
        assert(pow128(i + 1) == 128 * p);
        assert((n % 128) * p + (n / 128) * (128 * p) == n * p) by (nonlinear_arith);
        assert(n * p >= 0 && (n / 128) * pow128(i + 1) >= 0) by (nonlinear_arith)
            requires
                pow128(i + 1) == 128 * p,
        ;
        lemma_decode_encoded(s, pos, i + 1, n / 128);
    }
}

/// Where the bytes at `pos` are the 7-bit encoding of `n`, decoding there
/// gives back `n` and stops right after the encoding.
pub proof fn lemma_7bit_at(s: Seq<u8>, pos: nat, n: u32)
    requires
        pos + spec_encode_7bit(n as nat).len() <= s.len(),
        s.subrange(pos as int, (pos + spec_encode_7bit(n as nat).len()) as int) == spec_encode_7bit(
            n as nat,
        ),
    ensures
        spec_read_7bit(s, pos) == Ok::<(u32, nat), ExtractError>(
            (n, pos + spec_encode_7bit(n as nat).len()),
        ),
{
    lemma_pow128_values();
    lemma_encode_len(n as nat, 5);
    assert(group_sum(s, pos, 0) == 0);
    assert(pow128(0) == 1);
    lemma_decode_encoded(s, pos, 0, n as nat);
}

/// Decoding the 7-bit encoding of any 32-bit length, whatever bytes follow it,
/// gives back that length and stops right after the encoding.
pub proof fn lemma_7bit_round_trip(n: u32, rest: Seq<u8>)
    ensures
        spec_read_7bit(spec_encode_7bit(n as nat) + rest, 0) == Ok::<(u32, nat), ExtractError>(
            (n, spec_encode_7bit(n as nat).len()),
        ),
{
    let e = spec_encode_7bit(n as nat);
    let s = e + rest;
    assert(s.subrange(0, e.len() as int) =~= e);
    lemma_7bit_at(s, 0, n);
}

proof fn lemma_pow128_values()
    ensures
        pow128(4) == 268435456,
        pow128(5) == 34359738368,
{
    reveal_with_fuel(pow128, 6);
}

proof fn lemma_pow128_mono(a: nat, b: nat)
    requires
        a <= b,
    ensures
        pow128(a) <= pow128(b),
    decreases b - a,
{
    if a < b {
        lemma_pow128_mono(a, (b - 1) as nat);
    }
}

} // verus!
