//! Checksum engine: XOR and additive checksums over byte ranges, and the
//! predicate that tells whether a framed byte sequence carries a valid
//! trailing checksum.

use vstd::prelude::*;
use vstd::arithmetic::div_mod::{
    lemma_add_mod_noop, lemma_mod_mod, lemma_mod_sub_multiples_vanish, lemma_small_mod,
};

verus! {

/// Byte order used to decode a multi-byte checksum field.
#[derive(Debug, Clone, Copy)]
pub enum Endian {
    Big,
    Little,
}

/// Which checksum protects a packet, and over which of its bytes.
///
/// - `XOR { offset }`: the last byte equals the XOR of the bytes from
///   `offset` up to (excluding) that last byte.
/// - `ADD { size, offset, endian }`: the trailing `size` bytes (`1..=8`),
///   decoded in the given byte order, equal the sum of the bytes from
///   `offset` up to them, truncated to `size` bytes.
#[derive(Debug, Clone, Copy)]
pub enum ChecksumType {
    XOR { offset: usize },
    ADD { size: u8, offset: usize, endian: Endian },
}

/// XOR of all bytes of a sequence; the empty sequence folds to 0.
pub open spec fn xor_sum(s: Seq<u8>) -> u8
    decreases s.len(),
{
    if s.len() == 0 {
        0u8
    } else {
        xor_sum(s.drop_last()) ^ s.last()
    }
}

/// Sum of all bytes of a sequence, as an unbounded natural number.
pub open spec fn byte_sum(s: Seq<u8>) -> nat
    decreases s.len(),
{
    if s.len() == 0 {
        0nat
    } else {
        byte_sum(s.drop_last()) + s.last() as nat
    }
}

/// 256 raised to the power `n`: the number of values of an `n`-byte field.
pub open spec fn pow256(n: nat) -> nat
    decreases n,
{
    if n == 0 {
        1nat
    } else {
        256 * pow256((n - 1) as nat)
    }
}

/// Value of a byte sequence read as an unsigned integer, first byte most
/// significant.
pub open spec fn be_uint(s: Seq<u8>) -> nat
    decreases s.len(),
{
    if s.len() == 0 {
        0nat
    } else {
        256nat * be_uint(s.drop_last()) + s.last() as nat
    }
}

/// Value of a byte sequence read as an unsigned integer, first byte least
/// significant.
pub open spec fn le_uint(s: Seq<u8>) -> nat
    decreases s.len(),
{
    if s.len() == 0 {
        0nat
    } else {
        s.first() as nat + 256nat * le_uint(s.drop_first())
    }
}

/// Value of a byte sequence read as an unsigned integer in the given order.
pub open spec fn uint_of_bytes(s: Seq<u8>, endian: Endian) -> nat {
    match endian {
        Endian::Big => be_uint(s),
        Endian::Little => le_uint(s),
    }
}

/// Whether the byte sequence `s` ends in a checksum that is valid under `t`.
/// A configuration whose ranges do not fit in `s` (or an additive width
/// outside `1..=8`) never validates.
pub open spec fn checksum_ok(s: Seq<u8>, t: ChecksumType) -> bool {
    match t {
        ChecksumType::XOR { offset } => {
            &&& offset + 1 <= s.len()
            &&& xor_sum(s.subrange(offset as int, s.len() - 1)) == s[s.len() - 1]
        },
        ChecksumType::ADD { size, offset, endian } => {
            &&& 1 <= size <= 8
            &&& size <= s.len()
            &&& offset + size <= s.len()
            &&& byte_sum(s.subrange(offset as int, s.len() - size)) % pow256(size as nat)
                == uint_of_bytes(s.subrange(s.len() - size, s.len() as int), endian)
        },
    }
}

pub proof fn lemma_pow256_increases(a: nat, b: nat)
    requires
        a <= b,
    ensures
        pow256(a) <= pow256(b),
    decreases b,
{
    if a < b {
        lemma_pow256_increases(a, (b - 1) as nat);
    }
}

pub proof fn lemma_pow256_adds(a: nat, b: nat)
    ensures
        pow256(a + b) == pow256(a) * pow256(b),
    decreases a,
{
    if a == 0 {
        assert(pow256(b) == 1 * pow256(b));
    } else {
        lemma_pow256_adds((a - 1) as nat, b);
        assert(pow256(a + b) == 256 * pow256((a - 1) as nat + b));
        assert(256 * (pow256((a - 1) as nat) * pow256(b)) == (256 * pow256((a - 1) as nat))
            * pow256(b)) by (nonlinear_arith);
    }
}

/// The value of a big-endian field of `n` bytes is below `256^n`.
pub proof fn lemma_be_uint_bound(s: Seq<u8>)
    ensures
        be_uint(s) < pow256(s.len()),
    decreases s.len(),
{
    if s.len() > 0 {
        lemma_be_uint_bound(s.drop_last());
    }
}

/// The value of a little-endian field of `n` bytes is below `256^n`.
pub proof fn lemma_le_uint_bound(s: Seq<u8>)
    ensures
        le_uint(s) < pow256(s.len()),
    decreases s.len(),
{
    if s.len() > 0 {
        lemma_le_uint_bound(s.drop_first());
    }
}

/// Reducing a sum modulo `2^64` first does not change its low `k` bytes,
/// for any field width `k <= 8`.
proof fn lemma_pow256_mod(x: nat, k: nat)
    requires
        k <= 8,
    ensures
        (x % pow256(8)) % pow256(k) == x % pow256(k),
{
    lemma_pow256_adds(k, (8 - k) as nat);
    lemma_pow256_increases(1, k + 1);
    lemma_pow256_increases(0, (8 - k) as nat);
    lemma_mod_mod(x as int, pow256(k) as int, pow256((8 - k) as nat) as int);
}

/// XOR checksum of a byte slice: the fold of `^` over all bytes.
pub fn checksum_xor(buf: &[u8]) -> (r: u8)
    ensures
        r == xor_sum(buf@),
{
    let mut acc: u8 = 0;
    let mut j: usize = 0;
    while j < buf.len()
        invariant
            j <= buf@.len(),
            acc == xor_sum(buf@.take(j as int)),
        decreases buf@.len() - j,
    {
        let b = *vstd::slice::slice_index_get(buf, j);
        proof {
            assert(buf@.take(j + 1).drop_last() =~= buf@.take(j as int));
            assert(buf@.take(j + 1).last() == buf@[j as int]);
        }
        acc = acc ^ b;
        j = j + 1;
    }
    proof {
        assert(buf@.take(buf@.len() as int) =~= buf@);
    }
    acc
}

/// `256^size` for widths up to 7, as a machine word.
fn pow256_u64(size: u8) -> (r: u64)
    requires
        size <= 7,
    ensures
        r == pow256(size as nat),
{
    let mut r: u64 = 1;
    let mut k: u8 = 0;
    while k < size
        invariant
            k <= size <= 7,
            r == pow256(k as nat),
        decreases size - k,
    {
        proof {
            lemma_pow256_increases(k as nat, 6);
            assert(pow256(6) == 0x1000000000000) by {
                reveal_with_fuel(pow256, 8);
            }
        }
        r = r * 256;
        k = k + 1;
    }
    r
}

/// Additive checksum of a byte slice: the sum of all bytes, truncated to the
/// low `size` bytes. The accumulation wraps, which cannot change those bytes.
pub fn checksum_add(buf: &[u8], size: u8) -> (r: u64)
    requires
        1 <= size <= 8,
    ensures
        r == byte_sum(buf@) % pow256(size as nat),
{
    proof {
        assert(pow256(8) == 0x1_0000_0000_0000_0000) by {
            reveal_with_fuel(pow256, 9);
        }
    }
    let mut acc: u64 = 0;
    let mut j: usize = 0;
    while j < buf.len()
        invariant
            j <= buf@.len(),
            pow256(8) == 0x1_0000_0000_0000_0000,
            acc == byte_sum(buf@.take(j as int)) % pow256(8),
        decreases buf@.len() - j,
    {
        let b = *vstd::slice::slice_index_get(buf, j);
        proof {
            let p = pow256(8) as int;
            let s = byte_sum(buf@.take(j as int)) as int;
            assert(buf@.take(j + 1).drop_last() =~= buf@.take(j as int));
            assert(byte_sum(buf@.take(j + 1)) == s + b);
            lemma_add_mod_noop(s, b as int, p);
            lemma_small_mod(b as nat, pow256(8));
            if acc + b <= u64::MAX {
                lemma_small_mod((acc + b) as nat, pow256(8));
            } else {
                lemma_mod_sub_multiples_vanish(acc + b, p);
                lemma_small_mod((acc + b - p) as nat, pow256(8));
            }
        }
        acc = acc.wrapping_add(b as u64);
        j = j + 1;
    }
    proof {
        assert(buf@.take(buf@.len() as int) =~= buf@);
    }
    if size == 8 {
        acc
    } else {
        let m = pow256_u64(size);
        proof {
            assert(pow256(1) == 256) by {
                reveal_with_fuel(pow256, 2);
            }
            lemma_pow256_increases(1, size as nat);
            lemma_pow256_mod(byte_sum(buf@), size as nat);
        }
        acc % m
    }
}

/// Value of up to 8 bytes read as an unsigned integer in the given order.
pub fn buf_to_uint(buf: &[u8], endian: Endian) -> (r: u64)
    requires
        buf@.len() <= 8,
    ensures
        r == uint_of_bytes(buf@, endian),
{
    match endian {
        Endian::Big => {
            let mut acc: u64 = 0;
            let mut j: usize = 0;
            while j < buf.len()
                invariant
                    j <= buf@.len() <= 8,
                    acc == be_uint(buf@.take(j as int)),
                decreases buf@.len() - j,
            {
                let b = *vstd::slice::slice_index_get(buf, j);
                proof {
                    assert(buf@.take(j + 1).drop_last() =~= buf@.take(j as int));
                    lemma_be_uint_bound(buf@.take(j as int));
                    lemma_pow256_increases(j as nat, 7);
                    assert(256 * pow256(7) == pow256(8));
                    assert(pow256(8) == 0x1_0000_0000_0000_0000) by {
                        reveal_with_fuel(pow256, 9);
                    }
                }
                acc = acc * 256 + (b as u64);
                j = j + 1;
            }
            proof {
                assert(buf@.take(buf@.len() as int) =~= buf@);
            }
            acc
        },
        Endian::Little => {
            let mut acc: u64 = 0;
            let mut j: usize = buf.len();
            while j > 0
                invariant
                    j <= buf@.len() <= 8,
                    acc == le_uint(buf@.skip(j as int)),
                decreases j,
            {
                j = j - 1;
                let b = *vstd::slice::slice_index_get(buf, j);
                proof {
                    assert(buf@.skip(j as int).drop_first() =~= buf@.skip(j + 1));
                    assert(buf@.skip(j as int).first() == buf@[j as int]);
                    lemma_le_uint_bound(buf@.skip(j + 1));
                    lemma_pow256_increases((buf@.len() - j - 1) as nat, 7);
                    assert(256 * pow256(7) == pow256(8));
                    assert(pow256(8) == 0x1_0000_0000_0000_0000) by {
                        reveal_with_fuel(pow256, 9);
                    }
                }
                acc = (b as u64) + acc * 256;
            }
            proof {
                assert(buf@.skip(0) =~= buf@);
            }
            acc
        },
    }
}

/// Whether `buf` ends in a checksum that is valid under `chk_type`.
/// Configurations whose ranges do not fit in `buf`, and additive widths
/// outside `1..=8`, are reported as invalid rather than read out of bounds.
pub fn has_valid_checksum(buf: &[u8], chk_type: ChecksumType) -> (r: bool)
    ensures
        r == checksum_ok(buf@, chk_type),
{
    match chk_type {
        ChecksumType::XOR { offset } => {
            if buf.len() == 0 || offset > buf.len() - 1 {
                return false;
            }
            let body = vstd::slice::slice_subrange(buf, offset, buf.len() - 1);
            let cs = checksum_xor(body);
            cs == *vstd::slice::slice_index_get(buf, buf.len() - 1)
        },
        ChecksumType::ADD { size, offset, endian } => {
            if size < 1 || size > 8 {
                return false;
            }
            if size as usize > buf.len() || offset > buf.len() - size as usize {
                return false;
            }
            let last_idx = buf.len() - size as usize;
            let body = vstd::slice::slice_subrange(buf, offset, last_idx);
            let cs = checksum_add(body, size);
            let field = vstd::slice::slice_subrange(buf, last_idx, buf.len());
            cs == buf_to_uint(field, endian)
        },
    }
}

/// Law: appending the XOR checksum of any buffer yields a sequence that
/// validates under `XOR { offset: 0 }`.
pub proof fn lemma_xor_checksum_self_validating(b: Seq<u8>)
    ensures
        checksum_ok(b.push(xor_sum(b)), ChecksumType::XOR { offset: 0 }),
{
    let s = b.push(xor_sum(b));
    assert(s.subrange(0, s.len() - 1) =~= b);
}

} // verus!
