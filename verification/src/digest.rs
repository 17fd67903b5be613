//! Digests and their textual form.
//!
//! A file's exact content digest is a 128-bit cryptographic hash of its
//! bytes; a perceptual digest is a 64-bit fingerprint of decoded pixels.
//! This module computes the content digest, measures Hamming distance
//! between perceptual digests, and converts content digests to and from
//! their 32-character hexadecimal form.

use vstd::prelude::*;
use md5::Digest;

verus! {

use vstd::arithmetic::power::{pow, lemma_pow_adds, lemma_pow_increases, lemma_pow0, lemma_pow1};
use vstd::arithmetic::mul::{lemma_mul_is_distributive_add_other_way, lemma_mul_inequality};

/// The 128-bit content digest of a byte sequence.
pub uninterp spec fn md5_of(bytes: Seq<u8>) -> u128;

/// Relies on the `md-5` crate's `Md5` hasher: the 128-bit digest is a
/// function of the input bytes alone.
#[verifier::external_body]
pub(crate) fn md5_digest(bytes: &Vec<u8>) -> (r: u128)
    ensures
        r == md5_of(bytes@),
{
    let out: [u8; 16] = md5::Md5::digest(bytes.as_slice()).into();
    u128::from_be_bytes(out)
}

/// How many of the lowest `n` bits of `x` are set.
pub open spec fn ones_below(x: u64, n: int) -> int
    decreases n,
{
    if n <= 0 {
        0
    } else if (x >> ((n - 1) as u64)) & 1 == 1 {
        ones_below(x, n - 1) + 1
    } else {
        ones_below(x, n - 1)
    }
}

/// The Hamming distance between two 64-bit fingerprints: how many bit
/// positions differ.
pub open spec fn hamming_of(a: u64, b: u64) -> int {
    ones_below(a ^ b, 64)
}

/// Count the bit positions at which two fingerprints differ.
pub fn hamming(a: u64, b: u64) -> (r: u32)
    ensures
        r == hamming_of(a, b),
        r <= 64,
{
    let x = a ^ b;
    let mut count: u32 = 0;
    let mut i: u64 = 0;
    while i < 64
        invariant
            i <= 64,
            count == ones_below(x, i as int),
            count <= i,
        decreases 64 - i,
    {
        assert((x >> i) & 1 == 0 || (x >> i) & 1 == 1) by (bit_vector);
        let bit = (x >> i) & 1;
        count = count + (bit as u32);
        i = i + 1;
    }
    count
}

/// No bits are set in zero.
proof fn lemma_ones_below_zero(n: int)
    ensures
        ones_below(0u64, n) == 0,
    decreases n,
{
    if n > 0 {
        lemma_ones_below_zero(n - 1);
        let m = (n - 1) as u64;
        assert((0u64 >> m) & 1 == 0) by (bit_vector);
    }
}

/// The Hamming distance between a fingerprint and itself is zero.
pub proof fn lemma_hamming_self(a: u64)
    ensures
        hamming_of(a, a) == 0,
{
    assert(a ^ a == 0) by (bit_vector);
    lemma_ones_below_zero(64);
}

/// Hamming distance is symmetric.
pub proof fn lemma_hamming_symmetric(a: u64, b: u64)
    ensures
        hamming_of(a, b) == hamming_of(b, a),
{
    assert(a ^ b == b ^ a) by (bit_vector);
}

/// Whether a byte is an ASCII hexadecimal digit (either case).
pub open spec fn is_hex_digit(c: u8) -> bool {
    (48 <= c <= 57) || (97 <= c <= 102) || (65 <= c <= 70)
}

/// Whether a byte is a lowercase ASCII hexadecimal digit.
pub open spec fn is_lower_hex_digit(c: u8) -> bool {
    (48 <= c <= 57) || (97 <= c <= 102)
}

/// The numeric value of a hexadecimal digit.
pub open spec fn hex_val(c: u8) -> u8 {
    if 48 <= c <= 57 {
        (c - 48) as u8
    } else if 97 <= c <= 102 {
        (c - 87) as u8
    } else if 65 <= c <= 70 {
        (c - 55) as u8
    } else {
        0
    }
}

/// The lowercase hexadecimal digit for a value below 16.
pub open spec fn hex_digit(v: u8) -> u8 {
    if v < 10 {
        (48 + v) as u8
    } else {
        (87 + v) as u8
    }
}

/// The value of a sequence of nibbles, most significant first.
pub open spec fn nibbles_val(s: Seq<u8>) -> int
    decreases s.len(),
{
    if s.len() == 0 {
        0
    } else {
        nibbles_val(s.drop_last()) * 16 + s.last()
    }
}

/// The nibble values of a sequence of hexadecimal digits.
pub open spec fn hex_vals(s: Seq<u8>) -> Seq<u8> {
    Seq::new(s.len(), |i: int| hex_val(s[i]))
}

/// The number a sequence of hexadecimal digits denotes.
pub open spec fn digest_val(s: Seq<u8>) -> int {
    nibbles_val(hex_vals(s))
}

/// The value of a sequence of nibbles, least significant first.
spec fn val_lsb(s: Seq<u8>) -> int
    decreases s.len(),
{
    if s.len() == 0 {
        0
    } else {
        s.first() + 16 * val_lsb(s.drop_first())
    }
}

/// Sixteen to the thirty-second power, the number of 128-bit digests.
proof fn lemma_pow16_32()
    ensures
        pow(16, 32) == 0x100000000000000000000000000000000,
{
    lemma_pow0(16);
    lemma_pow1(16);
    lemma_pow_adds(16, 1, 1);
    assert(pow(16, 2) == 256);
    lemma_pow_adds(16, 2, 2);
    assert(pow(16, 4) == 0x10000);
    lemma_pow_adds(16, 4, 4);
    assert(pow(16, 8) == 0x100000000);
    lemma_pow_adds(16, 8, 8);
    assert(pow(16, 16) == 0x10000000000000000);
    lemma_pow_adds(16, 16, 16);
}

/// Appending a nibble at the least significant end scales it by the
/// position's power of sixteen.
proof fn lemma_val_lsb_push(s: Seq<u8>, x: u8)
    ensures
        val_lsb(s.push(x)) == val_lsb(s) + x * pow(16, s.len()),
    decreases s.len(),
{
    lemma_pow0(16);
    lemma_pow1(16);
    if s.len() == 0 {
        assert(s.push(x).drop_first() =~= Seq::<u8>::empty());
        assert(s.push(x)[0] == x);
        assert(s.push(x).first() == x);
        assert(val_lsb(s.push(x).drop_first()) == 0);
        assert(val_lsb(s.push(x)) == x);
    } else {
        assert(s.push(x).drop_first() =~= s.drop_first().push(x));
        assert(s.push(x).first() == s.first());
        lemma_val_lsb_push(s.drop_first(), x);
        let p = pow(16, (s.len() - 1) as nat);
        assert(val_lsb(s.push(x)) == s.first() + 16 * (val_lsb(s.drop_first()) + x * p));
        assert(16 * (x * p) == x * (16 * p)) by (nonlinear_arith);
        assert(16 * p == pow(16, s.len())) by {
            lemma_pow_adds(16, 1, (s.len() - 1) as nat);
        }
    }
}

/// A sequence of nibbles denotes a value below the power of sixteen at
/// its length.
proof fn lemma_val_lsb_bounds(s: Seq<u8>)
    requires
        forall|i: int| 0 <= i < s.len() ==> s[i] < 16,
    ensures
        0 <= val_lsb(s) < pow(16, s.len()),
    decreases s.len(),
{
    lemma_pow0(16);
    lemma_pow1(16);
    if s.len() == 0 {
    } else {
        lemma_val_lsb_bounds(s.drop_first());
        lemma_pow_adds(16, 1, (s.len() - 1) as nat);
        let p = pow(16, (s.len() - 1) as nat);
        assert(pow(16, s.len()) == 16 * p);
        assert(val_lsb(s.drop_first()) <= p - 1);
        assert(16 * val_lsb(s.drop_first()) <= 16 * (p - 1));
        assert(s.first() < 16);
    }
}

/// Reading nibbles most significant first, after reversal, denotes the
/// same value as reading them least significant first.
proof fn lemma_nibbles_val_reverse(s: Seq<u8>)
    ensures
        nibbles_val(s.reverse()) == val_lsb(s),
    decreases s.len(),
{
    if s.len() > 0 {
        assert(s.reverse().drop_last() =~= s.drop_first().reverse());
        assert(s.reverse().last() == s.first());
        lemma_nibbles_val_reverse(s.drop_first());
        assert(nibbles_val(s.reverse()) == val_lsb(s.drop_first()) * 16 + s.first());
        assert(val_lsb(s.drop_first()) * 16 == 16 * val_lsb(s.drop_first()))
            by (nonlinear_arith);
    }
}

/// Encode a content digest as 32 lowercase hexadecimal digits, most
/// significant first.
pub fn digest_to_hex(d: u128) -> (r: Vec<u8>)
    ensures
        r@.len() == 32,
        forall|i: int| 0 <= i < 32 ==> is_lower_hex_digit(#[trigger] r@[i]),
        digest_val(r@) == d,
{
    let mut buf: Vec<u8> = Vec::new();
    let mut rem: u128 = d;
    let mut i: usize = 0;
    proof {
        lemma_pow0(16);
    }
    while i < 32
        invariant
            i <= 32,
            buf@.len() == i,
            forall|j: int| 0 <= j < i ==> #[trigger] buf@[j] < 16,
            d == val_lsb(buf@) + rem * pow(16, i as nat),
        decreases 32 - i,
    {
        let m = (rem % 16) as u8;
        let q = rem / 16;
        proof {
            let ghost old_buf = buf@;
            lemma_val_lsb_push(old_buf, m);
            lemma_pow1(16);
            assert(rem == 16 * q + m);
            assert((16 * q + m) * pow(16, i as nat) == q * pow(16, (i + 1) as nat) + m * pow(
                16,
                i as nat,
            )) by {
                lemma_mul_is_distributive_add_other_way(pow(16, i as nat), 16 * q as int, m as int);
                assert((16 * q) * pow(16, i as nat) == q * (16 * pow(16, i as nat)))
                    by (nonlinear_arith);
                lemma_pow_adds(16, 1, i as nat);
                assert(pow(16, (i + 1) as nat) == 16 * pow(16, i as nat));
            }
        }
        buf.push(m);
        rem = q;
        i = i + 1;
    }
    proof {
        lemma_val_lsb_bounds(buf@);
        lemma_pow16_32();
        if rem > 0 {
            lemma_mul_inequality(1, rem as int, pow(16, 32));
        }
        assert(rem == 0);
        assert(d == val_lsb(buf@));
    }
    let mut r: Vec<u8> = Vec::new();
    let mut j: usize = 0;
    while j < 32
        invariant
            j <= 32,
            r@.len() == j,
            buf@.len() == 32,
            forall|k: int| 0 <= k < 32 ==> #[trigger] buf@[k] < 16,
            forall|k: int| 0 <= k < j ==> #[trigger] r@[k] == hex_digit(buf@[31 - k]),
        decreases 32 - j,
    {
        let v = buf[31 - j];
        let c = if v < 10 {
            48 + v
        } else {
            87 + v
        };
        r.push(c);
        j = j + 1;
    }
    proof {
        assert forall|i: int| 0 <= i < 32 implies is_lower_hex_digit(#[trigger] r@[i]) by {}
        lemma_nibbles_val_reverse(buf@);
        assert(hex_vals(r@) =~= buf@.reverse());
    }
    r
}

/// Decode 32 hexadecimal digits (either case) into a content digest.
///
/// Returns `None` exactly when the input is not 32 hexadecimal digits.
pub fn hex_to_digest(s: &Vec<u8>) -> (r: Option<u128>)
    ensures
        r is Some <==> (s@.len() == 32 && (forall|i: int|
            0 <= i < 32 ==> is_hex_digit(#[trigger] s@[i]))),
        r matches Some(v) ==> v == digest_val(s@),
{
    if s.len() != 32 {
        return None;
    }
    let mut acc: u128 = 0;
    let mut i: usize = 0;
    proof {
        lemma_pow0(16);
        assert(hex_vals(s@.take(0)) =~= Seq::<u8>::empty());
    }
    while i < 32
        invariant
            i <= 32,
            s@.len() == 32,
            forall|j: int| 0 <= j < i ==> is_hex_digit(#[trigger] s@[j]),
            acc == nibbles_val(hex_vals(s@.take(i as int))),
            acc < pow(16, i as nat),
        decreases 32 - i,
    {
        let c = s[i];
        let v: u8 = if 48 <= c && c <= 57 {
            c - 48
        } else if 97 <= c && c <= 102 {
            c - 87
        } else if 65 <= c && c <= 70 {
            c - 55
        } else {
            proof {
                assert(!is_hex_digit(s@[i as int]));
            }
            return None;
        };
        proof {
            lemma_pow16_32();
            lemma_pow1(16);
            lemma_pow_increases(16, (i + 1) as nat, 32);
            lemma_pow_adds(16, i as nat, 1);
            assert(acc * 16 + v < pow(16, (i + 1) as nat)) by (nonlinear_arith)
                requires
                    acc < pow(16, i as nat),
                    v < 16,
                    pow(16, (i + 1) as nat) == pow(16, i as nat) * pow(16, 1),
                    pow(16, 1) == 16,
            ;
            assert(hex_vals(s@.take(i + 1)) =~= hex_vals(s@.take(i as int)).push(
                hex_val(s@[i as int]),
            ));
            assert(hex_vals(s@.take(i + 1)).drop_last() =~= hex_vals(s@.take(i as int)));
            assert(hex_vals(s@.take(i + 1)).last() == hex_val(s@[i as int]));
        }
        acc = acc * 16 + (v as u128);
        i = i + 1;
    }
    proof {
        assert(s@.take(32) =~= s@);
    }
    Some(acc)
}

/// Encoding a digest and decoding the result gives the digest back.
///
/// With `hex_to_digest`'s contract this pins the decoder as the inverse
/// of the encoder on every digest.
pub proof fn lemma_hex_round_trip(d: u128, enc: Seq<u8>, dec: Option<u128>)
    requires
        enc.len() == 32,
        forall|i: int| 0 <= i < 32 ==> is_lower_hex_digit(#[trigger] enc[i]),
        digest_val(enc) == d,
        dec is Some <==> (enc.len() == 32 && (forall|i: int|
            0 <= i < 32 ==> is_hex_digit(#[trigger] enc[i]))),
        dec matches Some(v) ==> v == digest_val(enc),
    ensures
        dec == Some(d),
{
    assert forall|i: int| 0 <= i < 32 implies is_hex_digit(#[trigger] enc[i]) by {}
}

} // verus!
